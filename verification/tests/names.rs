use snapshot_diff::names::{has_name, name_changes, sorted_names};

fn strings(names: &[&str]) -> Vec<String> {
    names.iter().map(|n| n.to_string()).collect()
}

#[test]
fn names_are_sorted_and_kept_once() {
    let sorted = sorted_names(&strings(&["b", "a", "b", "ab", "", "B"]));
    assert_eq!(sorted, strings(&["", "B", "a", "ab", "b"]));
}

#[test]
fn sorted_names_agree_with_the_standard_order() {
    let names = strings(&["é", "e", "z", "a/b", "a", "Z", "a b", "10", "9"]);
    let mut expected = names.clone();
    expected.sort();
    expected.dedup();
    assert_eq!(sorted_names(&names), expected);
}

#[test]
fn names_are_found() {
    let names = strings(&["x", "y"]);
    assert!(has_name(&names, "y"));
    assert!(!has_name(&names, "z"));
}

#[test]
fn name_changes_classify_each_name_once() {
    let changes = name_changes(&strings(&["b", "a", "c", "a"]), &strings(&["d", "c", "a"]));
    assert_eq!(changes.removed, strings(&["b"]));
    assert_eq!(changes.added, strings(&["d"]));
    assert_eq!(changes.same, strings(&["a", "c"]));
}
