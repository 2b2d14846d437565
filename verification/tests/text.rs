use rmdigest::text::{append_decimal, chars_of, find_in, has_suffix, join_spaced};
use rmdigest::text::{lines, same_text, skip_char, split_char, string_of, trim};
use rmdigest::text::{trim_char, without_prefix, words};

fn text(v: &Vec<char>) -> String {
    string_of(v, 0, v.len())
}

fn texts(v: &Vec<Vec<char>>) -> Vec<String> {
    v.iter().map(text).collect()
}

#[test]
fn white_space_is_trimmed() {
    for s in ["", "  ", " a b\t", "\u{a0}x\u{3000}\u{2028}", "\u{200b}y"] {
        assert_eq!(text(&trim(&chars_of(s))), s.trim());
    }
    assert_eq!(text(&trim_char(&chars_of("//a/b/"), '/')), "a/b");
    assert_eq!(text(&skip_char(&chars_of("::a:"), ':')), "a:");
}

#[test]
fn lines_and_words_are_parted() {
    for s in ["", "a", "a\n", "a\r\nb\n\nc\r", "\n", "a\rb\n"] {
        let expected: Vec<&str> = s.lines().collect();
        assert_eq!(texts(&lines(&chars_of(s))), expected);
    }
    for s in ["", " a  b\u{a0}c\n", "x"] {
        let expected: Vec<&str> = s.split_whitespace().collect();
        assert_eq!(texts(&words(&chars_of(s))), expected);
        assert_eq!(text(&join_spaced(&words(&chars_of(s)))), expected.join(" "));
    }
    assert_eq!(texts(&split_char(&chars_of("a//b"), '/')), vec!["a", "", "b"]);
}

#[test]
fn texts_are_searched() {
    let v = chars_of("abcabc");
    assert_eq!(find_in(&v, &chars_of("ca"), 0), Some(2));
    assert_eq!(find_in(&v, &chars_of("abc"), 1), Some(3));
    assert_eq!(find_in(&v, &chars_of("x"), 0), None);
    assert_eq!(find_in(&v, &chars_of(""), 6), Some(6));
    assert!(has_suffix(&v, &chars_of("bc")));
    assert!(!has_suffix(&v, &chars_of("ab")));
    assert_eq!(without_prefix(&v, &chars_of("abc")).map(|r| text(&r)), Some("abc".to_string()));
    assert!(without_prefix(&v, &chars_of("b")).is_none());
    assert!(same_text("aé", "aé"));
    assert!(!same_text("a", "b"));
}

#[test]
fn numbers_are_written_in_digits() {
    for n in [0, 7, 10, 99, 100, 1234567890, u64::MAX] {
        let mut s = "n=".to_string();
        append_decimal(&mut s, n);
        assert_eq!(s, format!("n={n}"));
    }
}
