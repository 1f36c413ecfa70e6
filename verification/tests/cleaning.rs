use log_cleaner::cleaner::{
    clean_log, excluded_for_run, full_text, preview_text, process_log_text, CleanError,
    PREVIEW_LINES,
};

fn words(ws: &[&str]) -> Vec<String> {
    ws.iter().map(|w| w.to_string()).collect()
}

fn clean(content: &str, excluded: &[&str], add_spaces: bool, remove_non_rp: bool) -> (Vec<String>, usize) {
    clean_log(content, &words(excluded), add_spaces, remove_non_rp)
}

#[test]
fn chat_line_gives_its_message() {
    let (lines, count) = clean("[12:00:01] [main/INFO]: [CHAT] Привет, мир", &[], false, false);
    assert_eq!(lines, vec!["Привет, мир".to_string()]);
    assert_eq!(count, 1);
}

#[test]
fn private_message_line_gives_its_message() {
    let (lines, count) = clean("[PM] Стив -> вам: тише", &[], false, false);
    assert_eq!(lines, vec!["Стив -> вам: тише".to_string()]);
    assert_eq!(count, 1);
}

#[test]
fn lines_without_marker_are_dropped() {
    let (lines, count) = clean("[12:00] [main/INFO]: Loading\nnothing here\n", &[], false, false);
    assert!(lines.is_empty());
    assert_eq!(count, 0);
}

#[test]
fn later_marker_decides_where_the_message_starts() {
    let (lines, _) = clean("[PM] x [CHAT] y", &[], false, false);
    assert_eq!(lines, vec!["y".to_string()]);
    let (lines, _) = clean("[CHAT] a [PM] b", &[], false, false);
    assert_eq!(lines, vec!["b".to_string()]);
}

#[test]
fn leading_colon_is_removed() {
    let (lines, _) = clean("[CHAT]:   текст  ", &[], false, false);
    assert_eq!(lines, vec!["текст".to_string()]);
    let (lines, _) = clean("[CHAT] :: два", &[], false, false);
    assert_eq!(lines, vec![": два".to_string()]);
}

#[test]
fn marker_at_end_or_empty_message_is_dropped() {
    let (lines, count) = clean("abc [CHAT]\nabc [CHAT]   \n[PM] :  \n[CHAT] [PM] [CHAT]", &[], false, false);
    assert!(lines.is_empty());
    assert_eq!(count, 0);
}

#[test]
fn markers_inside_the_message_are_taken_out() {
    let (lines, _) = clean("[PM] x [CHAT] hi [CHAT] there [PM]", &[], false, false);
    assert_eq!(lines, vec!["hi  there".to_string()]);
    // the first private-message marker comes after the first chat marker
    let (lines, _) = clean("[CHAT] hi [CHAT] there [PM]", &[], false, false);
    assert!(lines.is_empty());
}

#[test]
fn removal_is_not_repeated_on_what_it_leaves() {
    let (lines, _) = clean("[PM] x [CHAT] a [CH[PM]AT] b", &[], false, false);
    assert_eq!(lines, vec!["a [CHAT] b".to_string()]);
}

#[test]
fn excluded_phrase_drops_the_message() {
    let (lines, count) = clean("[CHAT] this is spam\n[CHAT] fine", &["  spam "], false, false);
    assert_eq!(lines, vec!["fine".to_string()]);
    assert_eq!(count, 1);
}

#[test]
fn short_excluded_phrase_does_not_count() {
    let (lines, _) = clean("[CHAT] ab cd", &[" ab ", "", "x"], false, false);
    assert_eq!(lines, vec!["ab cd".to_string()]);
    // two Cyrillic letters take four bytes, so they count
    let (lines, _) = clean("[CHAT] да нет", &["да"], false, false);
    assert!(lines.is_empty());
}

#[test]
fn out_of_character_messages_are_removed_on_request() {
    let content = "[CHAT] ((afk))\n[CHAT] (( brb ))\n[CHAT] ((not closed)";
    let (kept, _) = clean(content, &[], false, false);
    assert_eq!(kept.len(), 3);
    let (kept, count) = clean(content, &[], false, true);
    assert_eq!(kept, vec!["((not closed)".to_string()]);
    assert_eq!(count, 1);
}

#[test]
fn spacing_puts_an_empty_line_after_each_message() {
    let (lines, count) = clean("[CHAT] a\n[CHAT] b\n", &[], true, false);
    assert_eq!(lines, words(&["a", "", "b", ""]));
    assert_eq!(count, 2);
}

#[test]
fn carriage_returns_end_lines() {
    let (lines, _) = clean("[CHAT] один\r\n[CHAT] два\r\n", &[], false, false);
    assert_eq!(lines, words(&["один", "два"]));
}

#[test]
fn unicode_white_space_is_trimmed() {
    let (lines, _) = clean("[CHAT]\u{3000}\u{a0}слово\u{2003}\t", &[], false, false);
    assert_eq!(lines, vec!["слово".to_string()]);
}

#[test]
fn preview_shows_at_most_seventy_five_lines() {
    let content: String = (0..100).map(|i| format!("[CHAT] m{}\n", i)).collect();
    let (lines, count) = clean(&content, &[], false, false);
    assert_eq!(count, 100);
    let preview = preview_text(&lines);
    assert_eq!(preview.lines().count(), PREVIEW_LINES);
    assert_eq!(preview.lines().last(), Some("m74"));
    let text = full_text(&lines);
    assert_eq!(text.lines().count(), 100);
    assert!(text.starts_with(&preview));
    assert!(!text.ends_with('\n'));
}

#[test]
fn processing_reports_and_prepares_the_text() {
    let (result, text) = process_log_text(
        "[CHAT] a\nnoise\n[PM] b",
        &Vec::new(),
        true,
        false,
        "/tmp/cleaned_x.log".to_string(),
    );
    assert_eq!(result.lines_count, 2);
    assert_eq!(result.preview, "a\n\nb\n");
    assert_eq!(text, "a\n\nb\n");
    assert_eq!(result.out_path, "/tmp/cleaned_x.log");
}

#[test]
fn empty_log_gives_empty_text() {
    let (result, text) = process_log_text("", &Vec::new(), false, false, String::new());
    assert_eq!(result.lines_count, 0);
    assert_eq!(result.preview, "");
    assert_eq!(text, "");
}

#[test]
fn base_list_is_added_after_own_phrases() {
    let own = words(&["a"]);
    let base = words(&["b", "c"]);
    assert_eq!(excluded_for_run(own.clone(), true, base.clone()), words(&["a", "b", "c"]));
    assert_eq!(excluded_for_run(own, false, base), words(&["a"]));
}

#[test]
fn more_exclusions_keep_fewer_messages() {
    let content = "[CHAT] hello there\n[CHAT] general kenobi\n[CHAT] ((ooc))";
    let (_, all) = clean(content, &["hello"], false, false);
    let (_, fewer) = clean(content, &["hello", "kenobi"], false, false);
    let (_, strict) = clean(content, &["hello"], false, true);
    assert_eq!((all, fewer, strict), (2, 1, 1));
}

#[test]
fn spacing_keeps_the_count_and_adds_empty_lines() {
    let content = "[CHAT] a\nnoise\n[PM] b\n[CHAT] c";
    let (plain, t0) = process_log_text(content, &Vec::new(), false, false, String::new());
    let (spaced, t1) = process_log_text(content, &Vec::new(), true, false, String::new());
    assert_eq!(plain.lines_count, spaced.lines_count);
    let expected: Vec<String> = t0.split('\n').map(|m| format!("{}\n", m)).collect();
    assert_eq!(t1, expected.join("\n"));
    let (_, e0) = process_log_text("noise", &Vec::new(), false, false, String::new());
    let (_, e1) = process_log_text("noise", &Vec::new(), true, false, String::new());
    assert_eq!((e0.as_str(), e1.as_str()), ("", ""));
}

#[test]
fn stricter_settings_keep_a_subsequence() {
    let content = "[CHAT] one\n[CHAT] spam two\n[CHAT] ((three))\n[CHAT] four ham";
    let (loose, _) = clean(content, &["ham"], false, false);
    let (strict, count) = clean(content, &["spam", "zzz", "ham"], false, true);
    assert_eq!(loose, words(&["one", "spam two", "((three))"]));
    assert_eq!(strict, words(&["one"]));
    assert_eq!(count, 1);
}

#[test]
fn kept_messages_are_trimmed_and_not_empty() {
    let (lines, _) = clean("[CHAT]  a b  \n[PM]\t c\u{3000}\n[CHAT] ", &[], false, false);
    for l in &lines {
        assert!(!l.is_empty());
        assert_eq!(l.trim(), l);
    }
    assert_eq!(lines.len(), 2);
}

#[test]
fn error_messages() {
    assert_eq!(CleanError::ArchiveUnreadable.message(), "Ошибка архива");
    assert_eq!(CleanError::ArchiveNotText.message(), "Не текст внутри GZ");
    assert_eq!(CleanError::FileUnreadable.message(), "Ошибка чтения файла");
    assert_eq!(CleanError::WriteFailed.message(), "Ошибка записи в файл");
}
