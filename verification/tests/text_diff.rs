use std::collections::HashSet;

use snapshot_diff::diff::{
    diff_text, diff_text_context, try_diff_text, Context, Filter, TEXT_DIFF_LIMIT,
};
use snapshot_diff::old_new::OldNew;

fn context(lines: usize) -> Context {
    Context {
        file_filter: String::new(),
        text_diff_context_size: lines,
        json_ignore_regex: None,
        json_ignore_new_default: true,
        json_sort: false,
        cs_decompile_assembly: true,
        unity_filter: Filter { ignore_classes: HashSet::new() },
    }
}

#[test]
fn changed_lines_are_shown_in_hunks() {
    let old = "a\nb\nc\nd\ne\n";
    let new = "a\nb\nC\nd\ne\n";
    assert_eq!(
        diff_text_context(OldNew::new(old, new), 1),
        "@@ -2,3 +2,3 @@\n b\n-c\n+C\n d"
    );
    assert_eq!(
        diff_text_context(OldNew::new(old, new), 0),
        "@@ -3 +3 @@\n-c\n+C"
    );
    assert_eq!(
        diff_text(&context(6), OldNew::new(old, new)),
        "@@ -1,5 +1,5 @@\n a\n b\n-c\n+C\n d\n e"
    );
}

#[test]
fn equal_texts_have_no_report() {
    assert_eq!(diff_text_context(OldNew::new("same\n", "same\n"), 3), "");
    assert_eq!(diff_text_context(OldNew::new("", ""), 3), "");
}

#[test]
fn line_ends_of_the_texts_are_not_kept() {
    let old = "a\r\nb\r\n";
    let new = "a\r\nc\r\n";
    assert_eq!(diff_text_context(OldNew::new(old, new), 3), "@@ -1,2 +1,2 @@\n a\n-b\n+c");
}

#[test]
fn long_texts_are_shown_whole() {
    let old = "o".repeat(TEXT_DIFF_LIMIT + 1);
    let new = "n".repeat(TEXT_DIFF_LIMIT + 7);
    let shown = diff_text_context(OldNew::new(&old, &new), 3);
    assert_eq!(shown, format!("old: {}\nnew: {}", old, new));
}

#[test]
fn the_limit_counts_bytes_and_is_part_of_the_long_texts() {
    assert_eq!(TEXT_DIFF_LIMIT, 1024 * 1024);
    let at_limit = "x".repeat(TEXT_DIFF_LIMIT);
    let shown = diff_text_context(OldNew::new(&at_limit, "short"), 3);
    assert_eq!(shown, format!("old: {}\nnew: short", at_limit));
    let shown = diff_text_context(OldNew::new("short", &at_limit), 3);
    assert_eq!(shown, format!("old: short\nnew: {}", at_limit));
    let wide = "é".repeat(TEXT_DIFF_LIMIT / 2);
    let shown = diff_text_context(OldNew::new(&wide, ""), 3);
    assert_eq!(shown, format!("old: {}\nnew: ", wide));
    let below = "x".repeat(TEXT_DIFF_LIMIT - 1);
    let shown = diff_text_context(OldNew::new(&below, &below), 3);
    assert_eq!(shown, "");
}

#[test]
fn bytes_that_are_texts_are_compared_as_texts() {
    let cx = context(3);
    let old = "a\n".as_bytes();
    let new = "b\n".as_bytes();
    assert_eq!(try_diff_text(&cx, OldNew::new(old, new)), Some("@@ -1 +1 @@\n-a\n+b".to_string()));
    let broken: &[u8] = &[0xff, 0xfe];
    assert_eq!(try_diff_text(&cx, OldNew::new(broken, new)), None);
    assert_eq!(try_diff_text(&cx, OldNew::new(old, broken)), None);
}
