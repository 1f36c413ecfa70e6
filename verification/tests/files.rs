use std::io::Write;

use flate2::write::GzEncoder;
use flate2::Compression;
use log_cleaner::archive::decode_archive;
use log_cleaner::cleaner::{
    base_list_needs_update, has_gz_extension, update_url, BASE_LIST_URL, output_file_name, parse_word_list, CleanError,
    DEFAULT_BASE_LIST,
};

fn gzip(data: &[u8]) -> Vec<u8> {
    let mut enc = GzEncoder::new(Vec::new(), Compression::default());
    enc.write_all(data).unwrap();
    enc.finish().unwrap()
}

#[test]
fn compressed_log_is_decompressed() {
    let data = gzip("[CHAT] привет\n".as_bytes());
    assert_eq!(decode_archive(&data), Ok("[CHAT] привет\n".to_string()));
}

#[test]
fn compressed_non_text_is_refused() {
    let data = gzip(&[0xff, 0xfe, 0x00]);
    assert_eq!(decode_archive(&data), Err(CleanError::ArchiveNotText));
}

#[test]
fn garbage_is_refused_as_archive() {
    assert_eq!(decode_archive(b"not gzip at all"), Err(CleanError::ArchiveNotText));
}

#[test]
fn output_name_drops_gz() {
    assert_eq!(output_file_name("latest.log.gz"), "cleaned_latest.log");
    assert_eq!(output_file_name("latest.log"), "cleaned_latest.log");
    assert_eq!(output_file_name("a.gz.gz"), "cleaned_a");
    assert_eq!(output_file_name("x..gzgz"), "cleaned_x.gz");
    assert_eq!(output_file_name("журнал.gz"), "cleaned_журнал");
}

#[test]
fn gz_extension() {
    assert!(has_gz_extension("a.gz"));
    assert!(has_gz_extension("2024-01-01-1.log.gz"));
    assert!(!has_gz_extension(".gz"));
    assert!(!has_gz_extension("a.log"));
    assert!(!has_gz_extension("agz"));
    assert!(!has_gz_extension("a.gz.txt"));
}

#[test]
fn word_list_lines_are_trimmed_and_blank_ones_dropped() {
    assert_eq!(
        parse_word_list("  one \r\n\n\t\ntwo\r\n three"),
        vec!["one".to_string(), "two".to_string(), "three".to_string()]
    );
    assert!(parse_word_list("").is_empty());
}

#[test]
fn default_base_list_has_its_phrases() {
    let list = parse_word_list(DEFAULT_BASE_LIST);
    assert_eq!(list.len(), 28);
    assert_eq!(list[0], "► Нажми ◄");
    assert_eq!(list[27], "был кикнут администратором");
    assert!(list.contains(&"[FeedbackForwardingSender]".to_string()));
}

#[test]
fn base_list_update_compares_trimmed_text() {
    assert!(!base_list_needs_update("a\nb\n", "  a\nb"));
    assert!(base_list_needs_update("a\nb\nc", "a\nb"));
    assert!(!base_list_needs_update("", "\n\n"));
}

#[test]
fn update_address_carries_the_time_stamp() {
    assert_eq!(update_url("https://x/list.txt", 1700000000), "https://x/list.txt?t=1700000000");
    assert_eq!(update_url("u", 0), "u?t=0");
    assert_eq!(update_url("u", u64::MAX), format!("u?t={}", u64::MAX));
    assert!(update_url(BASE_LIST_URL, 7).starts_with(BASE_LIST_URL));
}
