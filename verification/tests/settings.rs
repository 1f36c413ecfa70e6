use log_cleaner::config::{format_excluded_tags, parse_excluded_tags, Config};

fn words(ws: &[&str]) -> Vec<String> {
    ws.iter().map(|w| w.to_string()).collect()
}

#[test]
fn default_settings() {
    let c = Config::default();
    assert_eq!(c.save_path, "C:/");
    assert!(!c.add_spaces);
    assert!(!c.remove_non_rp);
    assert!(c.use_base_list);
    assert_eq!(c.excluded_words, words(&["[Чат фракции]"]));
}

#[test]
fn tags_are_split_at_commas_and_trimmed() {
    assert_eq!(parse_excluded_tags(" a, b ,,c ,  "), words(&["a", "b", "c"]));
    assert!(parse_excluded_tags("").is_empty());
    assert!(parse_excluded_tags(" , ,").is_empty());
    assert_eq!(parse_excluded_tags("[Чат фракции]"), words(&["[Чат фракции]"]));
}

#[test]
fn tags_are_shown_joined() {
    assert_eq!(format_excluded_tags(&words(&["a", "b c", "d"])), "a, b c, d");
    assert_eq!(format_excluded_tags(&Vec::new()), "");
}

#[test]
fn tags_round_trip() {
    let ws = words(&["[Чат фракции]", "spam phrase", "x"]);
    assert_eq!(parse_excluded_tags(&format_excluded_tags(&ws)), ws);
    let typed = " q ,, w e,";
    let parsed = parse_excluded_tags(typed);
    assert_eq!(parse_excluded_tags(&format_excluded_tags(&parsed)), parsed);
}
