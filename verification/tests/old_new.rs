use std::collections::BTreeSet;

use snapshot_diff::old_new::OldNew;

#[test]
fn new_keeps_both_sides() {
    let pair = OldNew::new(1u32, 2u32);
    assert_eq!(pair.old, 1);
    assert_eq!(pair.new, 2);
}

#[test]
fn map_applies_to_each_side() {
    let pair = OldNew::new(3u32, 4u32).map(|x| x * 10);
    assert_eq!((pair.old, pair.new), (30, 40));
}

#[test]
fn map_visits_old_before_new() {
    let mut order = Vec::new();
    let pair = OldNew::new("a", "b").map(|x| {
        order.push(x);
        x.len()
    });
    assert_eq!(order, vec!["a", "b"]);
    assert_eq!((pair.old, pair.new), (1, 1));
}

#[test]
fn map_zip_combines_matching_sides() {
    let names = OldNew::new("x".to_string(), "y".to_string());
    let pair = OldNew::new(1u32, 2u32).map_zip(&names, |n, name| format!("{name}{n}"));
    assert_eq!(pair.old, "x1");
    assert_eq!(pair.new, "y2");
}

#[test]
fn as_ref_borrows_both_sides() {
    let pair = OldNew::new(String::from("a"), String::from("b"));
    let borrowed = pair.as_ref();
    assert_eq!(borrowed.old, "a");
    assert_eq!(borrowed.new, "b");
    assert_eq!(pair.old, "a");
}

#[test]
fn as_deref_borrows_the_targets() {
    let pair = OldNew::new(vec![1u8, 2], vec![3u8]);
    let slices: OldNew<&[u8]> = pair.as_deref();
    assert_eq!(slices.old, &[1u8, 2][..]);
    assert_eq!(slices.new, &[3u8][..]);
}

#[test]
fn try_map_succeeds_when_both_sides_do() {
    let pair: Result<OldNew<u32>, String> =
        OldNew::new("1", "2").try_map(|s| s.parse::<u32>().map_err(|e| e.to_string()));
    let pair = pair.unwrap();
    assert_eq!((pair.old, pair.new), (1, 2));
}

#[test]
fn try_map_stops_at_the_old_side() {
    let mut calls = 0;
    let result: Result<OldNew<u32>, &str> = OldNew::new("bad", "2").try_map(|s| {
        calls += 1;
        s.parse::<u32>().map_err(|_| s)
    });
    assert_eq!(result.unwrap_err(), "bad");
    assert_eq!(calls, 1);
}

#[test]
fn try_map_reports_the_new_side_after_the_old() {
    let mut calls = 0;
    let result: Result<OldNew<u32>, &str> = OldNew::new("1", "worse").try_map(|s| {
        calls += 1;
        s.parse::<u32>().map_err(|_| s)
    });
    assert_eq!(result.unwrap_err(), "worse");
    assert_eq!(calls, 2);
}

#[test]
fn try_map_zip_combines_or_fails() {
    let limits = OldNew::new(10u32, 1u32);
    let ok = OldNew::new(5u32, 1u32)
        .try_map_zip(&limits, |n, limit| if n <= *limit { Ok(n) } else { Err(n) });
    let ok = ok.unwrap();
    assert_eq!((ok.old, ok.new), (5, 1));
    let err = OldNew::new(5u32, 2u32)
        .try_map_zip(&limits, |n, limit| if n <= *limit { Ok(n) } else { Err(n) });
    assert_eq!(err.unwrap_err(), 2);
}

#[test]
fn consume_hands_the_pair_over() {
    let text = OldNew::new(1u32, 2u32).consume(|p| format!("{} -> {}", p.old, p.new));
    assert_eq!(text, "1 -> 2");
}

#[test]
fn max_is_the_greater_side() {
    assert_eq!(OldNew::new(3u64, 5u64).max(), 5);
    assert_eq!(OldNew::new(7u64, 5u64).max(), 7);
    assert_eq!(OldNew::new(4u64, 4u64).max(), 4);
}

#[test]
fn changed_tells_whether_the_sides_differ() {
    assert!(OldNew::new(1u8, 2u8).changed());
    assert!(!OldNew::new("a", "a").changed());
}

#[test]
fn changes_partition_the_keys() {
    let pair = OldNew::new(vec![1u32, 2, 3, 3], vec![3u32, 4]);
    let changes = pair.as_ref().changes(|v| (*v).iter().copied());
    assert_eq!(changes.removed, BTreeSet::from([1, 2]));
    assert_eq!(changes.added, BTreeSet::from([4]));
    assert_eq!(changes.same, BTreeSet::from([3]));
    let old: BTreeSet<u32> = pair.old.iter().copied().collect();
    let new: BTreeSet<u32> = pair.new.iter().copied().collect();
    assert_eq!(&changes.removed | &changes.same, old);
    assert_eq!(&changes.added | &changes.same, new);
    assert!(changes.removed.is_disjoint(&changes.added));
    assert!(changes.removed.is_disjoint(&changes.same));
    assert!(changes.added.is_disjoint(&changes.same));
}

#[test]
fn changes_of_empty_sides_are_empty() {
    let pair = OldNew::new(Vec::<u8>::new(), Vec::<u8>::new());
    let changes = pair.as_ref().changes(|v| (*v).iter().copied());
    assert!(changes.removed.is_empty());
    assert!(changes.added.is_empty());
    assert!(changes.same.is_empty());
}

#[test]
fn changes_of_file_listings() {
    let old = vec![("a.txt", "h1"), ("b.txt", "h2")];
    let new = vec![("a.txt", "h1"), ("c.txt", "h3")];
    let pair = OldNew::new(old, new);
    let changes = pair.as_ref().changes(|files| (*files).iter().map(|(path, _)| *path));
    assert_eq!(changes.removed.into_iter().collect::<Vec<_>>(), vec!["b.txt"]);
    assert_eq!(changes.added.into_iter().collect::<Vec<_>>(), vec!["c.txt"]);
    assert_eq!(changes.same.into_iter().collect::<Vec<_>>(), vec!["a.txt"]);
}
