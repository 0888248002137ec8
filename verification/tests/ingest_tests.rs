use indexer::ingest::{
    executable_bits_set, format_for_extension, is_hidden_name, parse_segment_dir_name,
    should_skip_entry, DocFormat,
};

#[test]
fn extensions_map_to_their_parsers() {
    assert_eq!(format_for_extension("csv"), Some(DocFormat::Csv));
    assert_eq!(format_for_extension("html"), Some(DocFormat::Html));
    assert_eq!(format_for_extension("xml"), Some(DocFormat::Xml));
    assert_eq!(format_for_extension("xhtml"), Some(DocFormat::Xml));
    assert_eq!(format_for_extension("pdf"), Some(DocFormat::Pdf));
    assert_eq!(format_for_extension("txt"), Some(DocFormat::Text));
    assert_eq!(format_for_extension("md"), Some(DocFormat::Text));
    // unknown extensions are skipped silently
    assert_eq!(format_for_extension("rs"), None);
    assert_eq!(format_for_extension(""), None);
    assert_eq!(format_for_extension("TXT"), None);
}

#[test]
fn segment_directory_names_parse_exactly() {
    assert_eq!(parse_segment_dir_name("segment_1"), Some(1));
    assert_eq!(parse_segment_dir_name("segment_42"), Some(42));
    assert_eq!(parse_segment_dir_name("segment_007"), Some(7));
    assert_eq!(
        parse_segment_dir_name("segment_18446744073709551615"),
        Some(u64::MAX)
    );
    assert_eq!(parse_segment_dir_name("segment_"), None);
    assert_eq!(parse_segment_dir_name("segment_x"), None);
    assert_eq!(parse_segment_dir_name("segment_1x"), None);
    assert_eq!(parse_segment_dir_name("segments_1"), None);
    assert_eq!(parse_segment_dir_name("docstore.bin"), None);
    assert_eq!(parse_segment_dir_name(""), None);
    // a value past u64 is not a segment name
    assert_eq!(parse_segment_dir_name("segment_18446744073709551616"), None);
}

#[test]
fn hidden_names_start_with_a_dot() {
    assert!(is_hidden_name(".git"));
    assert!(is_hidden_name("."));
    assert!(!is_hidden_name("src"));
    assert!(!is_hidden_name(""));
}

#[test]
fn skip_rules_cover_hidden_and_listed_entries() {
    let skips = vec!["target".to_string(), "/tmp/cache".to_string()];
    assert!(should_skip_entry("/x/.git", ".git", false, &skips));
    assert!(!should_skip_entry("/x/.git", ".git", true, &skips));
    assert!(should_skip_entry("/x/target", "target", false, &skips));
    assert!(should_skip_entry("/tmp/cache", "cache", false, &skips));
    assert!(!should_skip_entry("/x/src", "src", false, &skips));
}

#[test]
fn executable_files_are_recognised_by_mode_bits() {
    assert!(executable_bits_set(0o755));
    assert!(executable_bits_set(0o100));
    assert!(!executable_bits_set(0o644));
    assert!(!executable_bits_set(0o000));
}
