use lucene_segments::file_names::get_generation_from_segments_file_name;
use lucene_segments::file_names::get_last_commit_generation;
use lucene_segments::file_names::get_segment_file_name;
use lucene_segments::file_names::parse_segments_file_name;

#[test]
fn generation_zero_is_the_bare_name() {
    assert_eq!(get_segment_file_name(0), "segments");
}

#[test]
fn other_generations_are_decimal() {
    assert_eq!(get_segment_file_name(1), "segments_1");
    assert_eq!(get_segment_file_name(10), "segments_10");
    assert_eq!(get_segment_file_name(u64::MAX), "segments_18446744073709551615");
}

#[test]
fn names_parse_back() {
    assert_eq!(parse_segments_file_name("segments"), Some(0));
    assert_eq!(parse_segments_file_name("segments_2"), Some(2));
    assert_eq!(parse_segments_file_name("segments_18446744073709551615"), Some(u64::MAX));
    assert_eq!(parse_segments_file_name("segments_18446744073709551616"), None);
    assert_eq!(parse_segments_file_name("segments_"), None);
    assert_eq!(parse_segments_file_name("segments.gen"), None);
    assert_eq!(parse_segments_file_name("unrelated.txt"), None);
}

#[test]
fn resolver_picks_the_highest_generation() {
    let names = vec![
        "segments".to_string(),
        "segments_2".to_string(),
        "segments_10".to_string(),
        "unrelated.txt".to_string(),
    ];
    assert_eq!(get_last_commit_generation(&names), Some(10));
}

#[test]
fn resolver_without_a_commit_file() {
    let names = vec!["unrelated.txt".to_string(), "_0.si".to_string(), "segments.gen".to_string()];
    assert_eq!(get_last_commit_generation(&names), None);
    assert_eq!(get_last_commit_generation(&[]), None);
}

#[test]
fn resolver_with_only_generation_zero() {
    let names = vec!["write.lock".to_string(), "segments".to_string()];
    assert_eq!(get_last_commit_generation(&names), Some(0));
}

#[test]
fn resolver_passes_over_names_that_only_look_alike() {
    let names = vec![
        "segments_x".to_string(),
        "segments_3".to_string(),
        "segmentsX".to_string(),
        "segments_".to_string(),
        "segments_99999999999999999999999".to_string(),
        "Segments_50".to_string(),
        "segments_+7".to_string(),
        "segments_ 8".to_string(),
        "segments_4é".to_string(),
    ];
    assert_eq!(get_last_commit_generation(&names), Some(3));
}

#[test]
fn resolver_compares_numbers_not_texts() {
    let names = vec!["segments_9".to_string(), "segments_10".to_string(), "segments_2".to_string()];
    assert_eq!(get_last_commit_generation(&names), Some(10));
}

#[test]
fn numbers_with_leading_zeros_are_read() {
    assert_eq!(parse_segments_file_name("segments_007"), Some(7));
    assert_eq!(parse_segments_file_name("segments_0"), Some(0));
}

#[test]
fn names_and_generations_are_inverses() {
    for generation in [0u64, 1, 9, 10, 99, 100, 12_345, 1 << 32, u64::MAX - 1, u64::MAX] {
        let name = get_segment_file_name(generation);
        assert_eq!(parse_segments_file_name(&name), Some(generation));
        assert_eq!(get_generation_from_segments_file_name(&name), generation);
    }
    for name in ["segments", "segments_1", "segments_42", "segments_18446744073709551615"] {
        let generation = get_generation_from_segments_file_name(name);
        assert_eq!(get_segment_file_name(generation), name);
    }
}
