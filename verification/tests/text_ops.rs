use log_cleaner::text::{
    chars_of, contains_exec, ends_with_exec, find_exec, is_white_space_char, remove_all_exec,
    split_trimmed_nonempty, starts_with_exec, string_of, trimmed, utf8_longer_than_two,
};

fn v(s: &str) -> Vec<char> {
    s.chars().collect()
}

#[test]
fn white_space_matches_std() {
    for c in ['\t', '\n', '\r', ' ', '\u{85}', '\u{a0}', '\u{1680}', '\u{2000}', '\u{200a}', '\u{2028}', '\u{2029}', '\u{202f}', '\u{205f}', '\u{3000}', 'a', '\u{200b}', 'ж', '\u{feff}'] {
        assert_eq!(is_white_space_char(c), c.is_whitespace(), "{:?}", c);
    }
}

#[test]
fn trimming_matches_std() {
    for s in ["  a b  ", "", "   ", "\u{3000}x\u{a0}", "ab"] {
        let cs = v(s);
        assert_eq!(string_of(&trimmed(&cs, 0, cs.len())), s.trim());
    }
    let cs = v("xx  mid  yy");
    assert_eq!(string_of(&trimmed(&cs, 2, 9)), "mid");
}

#[test]
fn searching() {
    assert_eq!(find_exec(&v("ab[CHAT]c[CHAT]"), &v("[CHAT]")), Some(2));
    assert_eq!(find_exec(&v("абв"), &v("в")), Some(2));
    assert_eq!(find_exec(&v("abc"), &v("x")), None);
    assert_eq!(find_exec(&v("ab"), &v("abc")), None);
    assert!(contains_exec(&v("hello"), &v("ell")));
    assert!(!contains_exec(&v("hello"), &v("elo")));
    assert!(starts_with_exec(&v("((x))"), &v("((")));
    assert!(ends_with_exec(&v("((x))"), &v("))")));
    assert!(!ends_with_exec(&v(")"), &v("))")));
}

#[test]
fn removal_matches_std_replace() {
    for (s, p) in [("aaa", "aa"), ("x[PM][PM]y", "[PM]"), ("", "ab"), ("abab", "ab"), ("a.gz.gz", ".gz")] {
        assert_eq!(string_of(&remove_all_exec(&v(s), &v(p))), s.replace(p, ""));
    }
}

#[test]
fn utf8_length() {
    assert!(!utf8_longer_than_two(&v("ab")));
    assert!(utf8_longer_than_two(&v("abc")));
    assert!(utf8_longer_than_two(&v("жж")));
    assert!(!utf8_longer_than_two(&v("ж")));
    assert!(utf8_longer_than_two(&v("€")));
    assert!(!utf8_longer_than_two(&v("")));
}

#[test]
fn chars_and_strings() {
    assert_eq!(chars_of("при"), vec!['п', 'р', 'и']);
    assert_eq!(string_of(&['о', 'к']), "ок");
}

#[test]
fn splitting_drops_blank_pieces() {
    assert_eq!(split_trimmed_nonempty("a;; b ;", ';'), vec!["a".to_string(), "b".to_string()]);
}
