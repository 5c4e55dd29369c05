use snapshot_diff::text::{
    chars_of, holds_at, push_decimal, read_numeral, replace_char, split_lines, str_equal,
    text_ends_with, writes_zero,
};

fn decimal(n: usize) -> String {
    let mut text = String::from("n=");
    push_decimal(&mut text, n);
    text
}

#[test]
fn decimal_numerals() {
    assert_eq!(decimal(0), "n=0");
    assert_eq!(decimal(7), "n=7");
    assert_eq!(decimal(10), "n=10");
    assert_eq!(decimal(1048576), "n=1048576");
    assert_eq!(decimal(usize::MAX), format!("n={}", usize::MAX));
}

#[test]
fn characters_of_a_text() {
    assert_eq!(chars_of("héllo"), vec!['h', 'é', 'l', 'l', 'o']);
    assert!(chars_of("").is_empty());
}

#[test]
fn prefixes_and_suffixes() {
    assert!(text_ends_with("sharedassets0.assets.resS", ".resS"));
    assert!(!text_ends_with("resS", ".resS"));
    assert!(text_ends_with("abc", ""));
    let text = chars_of("abcabc");
    assert!(holds_at(&text, 3, &chars_of("abc")));
    assert!(!holds_at(&text, 4, &chars_of("abc")));
    assert!(!holds_at(&text, usize::MAX, &chars_of("a")));
}

fn numeral(text: &str, limit: usize) -> Option<usize> {
    let chars = chars_of(text);
    read_numeral(&chars, 0, chars.len(), limit)
}

#[test]
fn numerals_are_read() {
    assert_eq!(numeral("0", 10), Some(0));
    assert_eq!(numeral("007", 10), Some(7));
    assert_eq!(numeral("+5", 10), Some(5));
    assert_eq!(numeral("10", 10), Some(10));
    assert_eq!(numeral("18446744073709551615", usize::MAX), Some(usize::MAX));
}

#[test]
fn what_is_no_numeral_is_refused() {
    assert_eq!(numeral("", 10), None);
    assert_eq!(numeral("+", 10), None);
    assert_eq!(numeral("-1", 10), None);
    assert_eq!(numeral("++1", 10), None);
    assert_eq!(numeral("1a", 10), None);
    assert_eq!(numeral("11", 10), None);
    assert_eq!(numeral("18446744073709551616", usize::MAX), None);
    assert_eq!(numeral("99999999999999999999999", usize::MAX), None);
}

fn lines(text: &str) -> Vec<String> {
    split_lines(text).into_iter().map(|l| l.into_iter().collect()).collect()
}

#[test]
fn lines_of_a_text() {
    assert_eq!(lines(""), Vec::<String>::new());
    assert_eq!(lines("a"), vec!["a"]);
    assert_eq!(lines("a\n"), vec!["a"]);
    assert_eq!(lines("a\n\nb"), vec!["a", "", "b"]);
    assert_eq!(lines("a\r\nb\r"), vec!["a", "b\r"]);
    assert_eq!(lines("\n"), vec![""]);
    for text in ["", "a", "a\n", "a\n\nb", "a\r\nb\r", "\n", "\r\n\r\n", "x\ry\n"] {
        let expected: Vec<String> = text.lines().map(|l| l.to_string()).collect();
        assert_eq!(lines(text), expected, "for {:?}", text);
    }
}

#[test]
fn texts_are_equal_or_not() {
    let texts = ["", "a", "ab", "abc", "abd", "é", "e", "a\u{0}", "日本", "日本語"];
    for a in texts {
        for b in texts {
            assert_eq!(str_equal(a, b), a == b, "{:?} and {:?}", a, b);
        }
    }
}

#[test]
fn characters_are_exchanged() {
    assert_eq!(replace_char("a/b//c", '/', '\u{0}'), "a\u{0}b\u{0}\u{0}c");
    assert_eq!(replace_char("a\u{0}b", '\u{0}', '/'), "a/b");
    assert_eq!(replace_char("", '/', 'x'), "");
    assert_eq!(replace_char("abc", '/', 'x'), "abc");
}

#[test]
fn zero_is_zero_however_written() {
    assert!(writes_zero("0"));
    assert!(writes_zero("0.0"));
    assert!(writes_zero("-0"));
    assert!(writes_zero("0e0"));
    assert!(writes_zero("-0.000E-3"));
    assert!(!writes_zero(""));
    assert!(!writes_zero("1"));
    assert!(!writes_zero("0.1"));
    assert!(!writes_zero("-"));
    assert!(!writes_zero("0e"));
    assert!(!writes_zero("0e-"));
    assert!(!writes_zero("0.0.0"));
}
