use lucene_segments::checksum::checksum;
use lucene_segments::error::SegmentReadError;
use lucene_segments::lucene_90::Lucene90SegmentInfoFormat;
use lucene_segments::lucene_90::SI_VERSION_CURRENT;
use lucene_segments::lucene_90::SI_VERSION_START;
use lucene_segments::segment_info::SegmentInfo;
use lucene_segments::segment_info::SegmentRef;

const MAGIC: u32 = 0x3fd7_6c17;
const FOOTER: u32 = 0xc028_93e8;

fn put_vint(out: &mut Vec<u8>, mut v: u32) {
    while v >= 0x80 {
        out.push((v & 0x7f) as u8 | 0x80);
        v >>= 7;
    }
    out.push(v as u8);
}

fn put_text(out: &mut Vec<u8>, text: &str) {
    put_vint(out, text.len() as u32);
    out.extend_from_slice(text.as_bytes());
}

fn put_int(out: &mut Vec<u8>, v: u32) {
    out.extend_from_slice(&v.to_be_bytes());
}

fn put_version(out: &mut Vec<u8>, v: (u32, u32, u32)) {
    put_int(out, v.0);
    put_int(out, v.1);
    put_int(out, v.2);
}

fn put_map(out: &mut Vec<u8>, entries: &[(&str, &str)]) {
    put_vint(out, entries.len() as u32);
    for (k, v) in entries {
        put_text(out, k);
        put_text(out, v);
    }
}

fn put_list(out: &mut Vec<u8>, items: &[&str]) {
    put_vint(out, items.len() as u32);
    for item in items {
        put_text(out, item);
    }
}

fn put_footer(out: &mut Vec<u8>) {
    let sum = checksum(out);
    put_int(out, FOOTER);
    put_int(out, sum);
}

struct Plan<'a> {
    magic: u32,
    codec: &'a str,
    format_version: u32,
    id: [u8; 16],
    version: (u32, u32, u32),
    min_version_flag: u8,
    min_version: (u32, u32, u32),
    doc_count: u32,
    compound: u8,
    diagnostics: Vec<(&'a str, &'a str)>,
    files: Vec<&'a str>,
    attributes: Vec<(&'a str, &'a str)>,
    sort_fields: Vec<&'a str>,
}

fn plan<'a>() -> Plan<'a> {
    Plan {
        magic: MAGIC,
        codec: "Lucene90SegmentInfo",
        format_version: 0,
        id: [0xAB; 16],
        version: (9, 4, 2),
        min_version_flag: 1,
        min_version: (9, 0, 0),
        doc_count: 1234,
        compound: 1,
        diagnostics: vec![("os", "linux"), ("source", "flush")],
        files: vec!["_0.cfs", "_0.cfe", "_0.si"],
        attributes: vec![("mode", "BEST_SPEED")],
        sort_fields: vec!["date", "title"],
    }
}

fn content(p: &Plan) -> Vec<u8> {
    let mut out = Vec::new();
    put_int(&mut out, p.magic);
    put_text(&mut out, p.codec);
    put_int(&mut out, p.format_version);
    out.extend_from_slice(&p.id);
    put_version(&mut out, p.version);
    out.push(p.min_version_flag);
    if p.min_version_flag == 1 {
        put_version(&mut out, p.min_version);
    }
    put_vint(&mut out, p.doc_count);
    out.push(p.compound);
    put_map(&mut out, &p.diagnostics);
    put_list(&mut out, &p.files);
    put_map(&mut out, &p.attributes);
    put_list(&mut out, &p.sort_fields);
    out
}

fn file(p: &Plan) -> Vec<u8> {
    let mut out = content(p);
    put_footer(&mut out);
    out
}

fn segment() -> SegmentRef {
    SegmentRef {
        name: "_0".to_string(),
        id: vec![0xAB; 16],
        codec_name: "Lucene90SegmentInfo".to_string(),
    }
}

fn read(p: &Plan) -> Result<SegmentInfo, SegmentReadError> {
    Lucene90SegmentInfoFormat::read(file(p), &segment())
}

fn error_of(p: &Plan) -> SegmentReadError {
    match read(p) {
        Ok(_) => panic!("the file was accepted"),
        Err(e) => e,
    }
}

fn rewrite(info: &SegmentInfo, codec: &str, format_version: u32) -> Vec<u8> {
    let mut out = Vec::new();
    put_int(&mut out, MAGIC);
    put_text(&mut out, codec);
    put_int(&mut out, format_version);
    out.extend_from_slice(&info.id);
    put_version(&mut out, info.version);
    match info.min_version {
        None => out.push(0),
        Some(v) => {
            out.push(1);
            put_version(&mut out, v);
        }
    }
    put_vint(&mut out, info.doc_count);
    out.push(if info.is_compound_file { 1 } else { 0 });
    put_vint(&mut out, info.diagnostics.len() as u32);
    for i in 0..info.diagnostics.len() {
        let (k, v) = info.diagnostics.entry(i);
        put_text(&mut out, k);
        put_text(&mut out, v);
    }
    put_vint(&mut out, info.files.len() as u32);
    for i in 0..info.files.len() {
        put_text(&mut out, info.files.item(i));
    }
    put_vint(&mut out, info.attributes.len() as u32);
    for i in 0..info.attributes.len() {
        let (k, v) = info.attributes.entry(i);
        put_text(&mut out, k);
        put_text(&mut out, v);
    }
    put_vint(&mut out, info.sort_fields.len() as u32);
    for field in &info.sort_fields {
        put_text(&mut out, field);
    }
    put_footer(&mut out);
    out
}

#[test]
fn format_constants() {
    assert_eq!(Lucene90SegmentInfoFormat::SI_EXTENSION, "si");
    assert_eq!(SI_VERSION_START, 0);
    assert_eq!(SI_VERSION_CURRENT, 0);
    assert_eq!(Lucene90SegmentInfoFormat::file_name("_0"), "_0.si");
    assert_eq!(Lucene90SegmentInfoFormat::file_name(""), ".si");
}

#[test]
fn decodes_every_field() {
    let info = read(&plan()).unwrap();
    assert_eq!(info.name, "_0");
    assert_eq!(info.id, vec![0xAB; 16]);
    assert_eq!(info.version, (9, 4, 2));
    assert_eq!(info.min_version, Some((9, 0, 0)));
    assert_eq!(info.doc_count, 1234);
    assert!(info.is_compound_file);
    assert_eq!(info.diagnostics.len(), 2);
    assert_eq!(info.diagnostics.get("os").map(|s| s.as_str()), Some("linux"));
    assert_eq!(info.diagnostics.get("source").map(|s| s.as_str()), Some("flush"));
    assert_eq!(info.diagnostics.get("missing"), None);
    assert_eq!(info.files.len(), 3);
    assert!(info.files.contains("_0.cfs"));
    assert!(info.files.contains("_0.cfe"));
    assert!(info.files.contains("_0.si"));
    assert!(!info.files.contains("_1.si"));
    assert_eq!(info.attributes.len(), 1);
    assert_eq!(info.attributes.get("mode").map(|s| s.as_str()), Some("BEST_SPEED"));
    assert_eq!(info.sort_fields, vec!["date".to_string(), "title".to_string()]);
}

#[test]
fn min_version_may_be_absent() {
    let mut p = plan();
    p.min_version_flag = 0;
    let info = read(&p).unwrap();
    assert_eq!(info.min_version, None);
    assert_eq!(info.doc_count, 1234);
}

#[test]
fn min_version_flag_has_to_be_zero_or_one() {
    let mut p = plan();
    p.min_version_flag = 2;
    assert_eq!(error_of(&p), SegmentReadError::CorruptedIndex);
}

#[test]
fn compound_flag_has_to_be_zero_or_one() {
    let mut p = plan();
    p.compound = 0;
    assert!(!read(&p).unwrap().is_compound_file);
    p.compound = 2;
    assert_eq!(error_of(&p), SegmentReadError::CorruptedIndex);
    p.compound = 0xFF;
    assert_eq!(error_of(&p), SegmentReadError::CorruptedIndex);
}

#[test]
fn doc_count_may_not_be_negative() {
    let mut p = plan();
    p.doc_count = 0;
    assert_eq!(read(&p).unwrap().doc_count, 0);
    p.doc_count = 0x7FFF_FFFF;
    assert_eq!(read(&p).unwrap().doc_count, 0x7FFF_FFFF);
    p.doc_count = 0x8000_0000;
    assert_eq!(error_of(&p), SegmentReadError::CorruptedIndex);
    p.doc_count = u32::MAX;
    assert_eq!(error_of(&p), SegmentReadError::CorruptedIndex);
}

#[test]
fn empty_collections_are_fine() {
    let mut p = plan();
    p.diagnostics.clear();
    p.files.clear();
    p.attributes.clear();
    p.sort_fields.clear();
    let info = read(&p).unwrap();
    assert_eq!(info.diagnostics.len(), 0);
    assert_eq!(info.files.len(), 0);
    assert_eq!(info.attributes.len(), 0);
    assert!(info.sort_fields.is_empty());
}

#[test]
fn duplicate_keys_keep_the_last_value() {
    let mut p = plan();
    p.diagnostics = vec![("a", "1"), ("b", "2"), ("a", "3")];
    p.attributes = vec![("k", "x"), ("k", "y"), ("k", "z")];
    let info = read(&p).unwrap();
    assert_eq!(info.diagnostics.len(), 2);
    assert_eq!(info.diagnostics.get("a").map(|s| s.as_str()), Some("3"));
    assert_eq!(info.diagnostics.get("b").map(|s| s.as_str()), Some("2"));
    let first = info.diagnostics.entry(0);
    assert_eq!((first.0.as_str(), first.1.as_str()), ("a", "3"));
    assert_eq!(info.attributes.len(), 1);
    assert_eq!(info.attributes.get("k").map(|s| s.as_str()), Some("z"));
}

#[test]
fn duplicate_files_collapse() {
    let mut p = plan();
    p.files = vec!["_0.cfs", "_0.si", "_0.cfs", "_0.cfs"];
    let info = read(&p).unwrap();
    assert_eq!(info.files.len(), 2);
    assert_eq!(info.files.item(0), "_0.cfs");
    assert_eq!(info.files.item(1), "_0.si");
}

#[test]
fn sort_fields_keep_order_and_duplicates() {
    let mut p = plan();
    p.sort_fields = vec!["b", "a", "b"];
    let info = read(&p).unwrap();
    assert_eq!(info.sort_fields, vec!["b".to_string(), "a".to_string(), "b".to_string()]);
}

#[test]
fn id_that_differs_from_the_commit_is_a_mismatch() {
    let mut p = plan();
    p.id = [0xAC; 16];
    assert_eq!(error_of(&p), SegmentReadError::SegmentIdMismatch);
}

#[test]
fn id_mismatch_comes_before_what_follows_it() {
    let mut p = plan();
    p.id[15] = 0;
    let mut data = content(&p);
    data.truncate(4 + 1 + p.codec.len() + 4 + 16);
    data.extend_from_slice(&[0xFF; 5]);
    assert_eq!(
        Lucene90SegmentInfoFormat::read(data, &segment()).unwrap_err(),
        SegmentReadError::SegmentIdMismatch
    );
}

#[test]
fn header_is_checked_against_the_commit_entry() {
    let mut p = plan();
    p.codec = "Lucene86SegmentInfo";
    assert_eq!(error_of(&p), SegmentReadError::CodecMismatch);
    let mut p = plan();
    p.magic = 0;
    assert_eq!(error_of(&p), SegmentReadError::MagicMismatch);
    let mut p = plan();
    p.format_version = 1;
    assert_eq!(error_of(&p), SegmentReadError::VersionTooNew);
}

#[test]
fn any_codec_name_is_fine_when_the_commit_names_it() {
    let mut p = plan();
    p.codec = "Custom";
    let entry = SegmentRef { name: "_7".to_string(), id: vec![0xAB; 16], codec_name: "Custom".to_string() };
    let info = Lucene90SegmentInfoFormat::read(file(&p), &entry).unwrap();
    assert_eq!(info.name, "_7");
}

#[test]
fn truncation_anywhere_is_refused() {
    let data = file(&plan());
    for cut in 0..data.len() {
        let result = Lucene90SegmentInfoFormat::read(data[..cut].to_vec(), &segment());
        assert!(result.is_err(), "accepted a file cut to {} bytes", cut);
    }
    assert!(Lucene90SegmentInfoFormat::read(data, &segment()).is_ok());
}

#[test]
fn missing_footer_is_eof() {
    let data = content(&plan());
    assert_eq!(
        Lucene90SegmentInfoFormat::read(data, &segment()).unwrap_err(),
        SegmentReadError::UnexpectedEof
    );
}

#[test]
fn bytes_after_the_footer_are_refused() {
    let mut data = file(&plan());
    data.push(0);
    assert_eq!(
        Lucene90SegmentInfoFormat::read(data, &segment()).unwrap_err(),
        SegmentReadError::ChecksumMismatch
    );
}

#[test]
fn changed_checksum_is_a_mismatch() {
    let mut data = file(&plan());
    let last = data.len() - 1;
    data[last] = data[last].wrapping_add(1);
    assert_eq!(
        Lucene90SegmentInfoFormat::read(data, &segment()).unwrap_err(),
        SegmentReadError::ChecksumMismatch
    );
}

#[test]
fn no_single_changed_byte_is_accepted() {
    let data = file(&plan());
    let body = data.len() - 8;
    for i in 0..body {
        for flip in [0x01u8, 0x80, 0xFF] {
            let mut changed = data.clone();
            changed[i] ^= flip;
            let result = Lucene90SegmentInfoFormat::read(changed, &segment());
            assert!(result.is_err(), "accepted a change of byte {}", i);
        }
    }
}

#[test]
fn changed_text_is_a_checksum_mismatch() {
    let data = file(&plan());
    let at = data.windows(5).position(|w| w == b"linux").unwrap();
    let mut changed = data.clone();
    changed[at] = b'L';
    assert_eq!(
        Lucene90SegmentInfoFormat::read(changed, &segment()).unwrap_err(),
        SegmentReadError::ChecksumMismatch
    );
}

#[test]
fn invalid_utf8_in_a_value() {
    let data = file(&plan());
    let at = data.windows(5).position(|w| w == b"linux").unwrap();
    let mut changed = data.clone();
    changed[at] = 0xFF;
    assert_eq!(
        Lucene90SegmentInfoFormat::read(changed, &segment()).unwrap_err(),
        SegmentReadError::InvalidUtf8
    );
}

#[test]
fn decoding_then_writing_gives_the_same_bytes() {
    let mut p = plan();
    let data = file(&p);
    let info = Lucene90SegmentInfoFormat::read(data.clone(), &segment()).unwrap();
    assert_eq!(rewrite(&info, "Lucene90SegmentInfo", 0), data);
    p.min_version_flag = 0;
    p.compound = 0;
    p.doc_count = 300;
    p.sort_fields.clear();
    let data = file(&p);
    let info = Lucene90SegmentInfoFormat::read(data.clone(), &segment()).unwrap();
    assert_eq!(rewrite(&info, "Lucene90SegmentInfo", 0), data);
}

#[test]
fn long_texts_and_many_entries() {
    let long = "é".repeat(5000);
    let keys: Vec<String> = (0..300).map(|i| format!("key{}", i)).collect();
    let mut p = plan();
    p.diagnostics = keys.iter().map(|k| (k.as_str(), long.as_str())).collect();
    let info = read(&p).unwrap();
    assert_eq!(info.diagnostics.len(), 300);
    assert_eq!(info.diagnostics.get("key299").map(|s| s.len()), Some(10_000));
}
