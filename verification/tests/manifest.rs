use std::collections::HashSet;

use snapshot_diff::depotdownloader_manifest::{
    Manifest, ManifestDate, ManifestError, ManifestFile,
};
use snapshot_diff::diff::{Context, DiffResult, Filter};
use snapshot_diff::old_new::OldNew;
use snapshot_diff::snapshot::{output_name, snapshot_changes, text_contains};

const LISTING: &str = "Content Manifest for Depot 1030841\n\
\n\
Manifest ID / date     : 4447925597116812748 / 09/04/2025 14:05:39\n\
Total number of files  : 2\n\
Total number of chunks : 3\n\
Total bytes on disk    : 30\n\
Total bytes compressed : 20\n\
\n\
          Size Chunks File SHA                                 Flags Name\n\
            10      1 aaaaaaaaaaaaaaaaaaaaaaaaaaaaaaaaaaaaaaaa     0 game.exe\n\
            20      2 bbbbbbbbbbbbbbbbbbbbbbbbbbbbbbbbbbbbbbbb    64 data/level 0\n";

#[test]
fn a_manifest_is_read() {
    let manifest = Manifest::parse(LISTING).unwrap();
    assert_eq!(manifest.id, "4447925597116812748");
    assert_eq!(
        manifest.date,
        ManifestDate { year: 2025, month: 9, day: 4, hour: 14, minute: 5, second: 39 }
    );
    assert_eq!(manifest.files.len(), 2);
    assert_eq!(manifest.files[0].0, "game.exe");
    assert_eq!(manifest.files[0].1.size, 10);
    assert_eq!(manifest.files[0].1.flags, 0);
    assert_eq!(manifest.files[0].1.sha, "a".repeat(40));
    assert_eq!(manifest.files[1].0, "data/level 0");
    assert_eq!(manifest.files[1].1.size, 20);
    assert_eq!(manifest.files[1].1.flags, 64);
    assert_eq!(manifest.files[1].1.sha, "b".repeat(40));
}

#[test]
fn a_manifest_without_files_is_read() {
    let text = "x\ny\nManifest ID / date: 7 / 01/02/2003 04:05:06\nSize Chunks File SHA Flags Name";
    let manifest = Manifest::parse(text).unwrap();
    assert_eq!(manifest.id, "7");
    assert_eq!(manifest.date.year, 2003);
    assert_eq!(manifest.date.month, 1);
    assert_eq!(manifest.date.day, 2);
    assert!(manifest.files.is_empty());
}

#[test]
fn dates_order_as_times_do() {
    let early = ManifestDate { year: 2024, month: 12, day: 31, hour: 23, minute: 59, second: 59 };
    let late = ManifestDate { year: 2025, month: 1, day: 1, hour: 0, minute: 0, second: 0 };
    assert!(early < late);
}

fn error_of(text: &str) -> ManifestError {
    Manifest::parse(text).unwrap_err()
}

#[test]
fn a_bad_header_is_refused() {
    assert_eq!(error_of(""), ManifestError::InvalidHeader);
    assert_eq!(error_of("a\nb"), ManifestError::InvalidHeader);
    assert_eq!(error_of("a\nb\nno colon here\nSize Chunks File SHA"), ManifestError::InvalidHeader);
    assert_eq!(
        error_of("a\nb\nManifest: 1 / 01/02/2003 04:05:06\nSize Chunks File SHA"),
        ManifestError::InvalidHeader
    );
    assert_eq!(
        error_of("a\nb\nManifest ID / date: 1 01/02/2003 04:05:06\nSize Chunks File SHA"),
        ManifestError::InvalidHeader
    );
}

#[test]
fn a_missing_marker_is_refused() {
    assert_eq!(
        error_of("a\nb\nManifest ID / date: 1 / 01/02/2003 04:05:06\n10 1 abc 0 file"),
        ManifestError::MissingMarker
    );
    assert_eq!(
        error_of("a\nb\nManifest ID / date: 1 / 01/02/2003 04:05:06"),
        ManifestError::MissingMarker
    );
}

#[test]
fn a_bad_line_is_refused() {
    let head = "a\nb\nManifest ID / date: 1 / 01/02/2003 04:05:06\n  Size Chunks File SHA\n";
    for line in ["", "10 1 abc", "10 1 abc 0", "x 1 abc 0 file", "10 1 abc -1 file",
        "10 1 abc 4294967296 file", "99999999999999999999999 1 abc 0 file"]
    {
        let text = format!("{head}10 1 abc 0 ok\n{line}\n10 1 abc 0 later");
        assert_eq!(error_of(&text), ManifestError::InvalidLine, "for {:?}", line);
    }
    let fine = format!("{head}10 1 abc 4294967295  two spaces\n+7 x y +0 ");
    let manifest = Manifest::parse(&fine).unwrap();
    assert_eq!(manifest.files[0].0, " two spaces");
    assert_eq!(manifest.files[0].1.flags, u32::MAX);
    assert_eq!(manifest.files[1].0, "");
    assert_eq!(manifest.files[1].1.size, 7);
}

#[test]
fn a_bad_date_is_refused() {
    assert_eq!(
        error_of("a\nb\nManifest ID / date: 1 / 2003-01-02\nSize Chunks File SHA"),
        ManifestError::InvalidDate
    );
    assert_eq!(
        error_of("a\nb\nManifest ID / date: 1 / 13/02/2003 04:05:06\nSize Chunks File SHA"),
        ManifestError::InvalidDate
    );
    assert_eq!(
        error_of("a\nb\nManifest ID / date: 1 / 01/02/2003 04:05:06\nSize Chunks File SHA\nbad"),
        ManifestError::InvalidLine
    );
}

fn context(filter: &str) -> Context {
    Context {
        file_filter: filter.to_string(),
        text_diff_context_size: 6,
        json_ignore_regex: None,
        json_ignore_new_default: true,
        json_sort: false,
        cs_decompile_assembly: true,
        unity_filter: Filter { ignore_classes: HashSet::new() },
    }
}

fn manifest(files: &[(&str, u32, &str)]) -> Manifest {
    Manifest {
        id: "1".to_string(),
        date: ManifestDate { year: 2025, month: 1, day: 1, hour: 0, minute: 0, second: 0 },
        files: files
            .iter()
            .map(|(path, flags, sha)| {
                (path.to_string(), ManifestFile { size: 1, flags: *flags, sha: sha.to_string() })
            })
            .collect(),
    }
}

#[test]
fn manifest_level_scenario() {
    let old = manifest(&[("a.txt", 0, "h1"), ("b.txt", 0, "h2")]);
    let new = manifest(&[("a.txt", 0, "h1"), ("c.txt", 0, "h3")]);
    let changes = snapshot_changes(&context(""), OldNew::new(&old, &new));
    assert_eq!(changes.removed, vec!["b.txt"]);
    assert_eq!(changes.added, vec!["c.txt"]);
    assert_eq!(changes.same, vec!["a.txt"]);
    assert!(changes.content_changed.is_empty());
    assert!(changes.flags_changed.is_empty());
}

#[test]
fn changed_files_are_found_by_hash_and_flags() {
    let old = manifest(&[("z", 0, "h1"), ("data/a", 1, "h2"), ("data/b", 0, "h3"), ("z", 2, "h4")]);
    let new = manifest(&[("data/b", 0, "h5"), ("data/a", 3, "h2"), ("z", 2, "h9")]);
    let changes = snapshot_changes(&context(""), OldNew::new(&old, &new));
    assert_eq!(changes.same, vec!["data/a", "data/b", "z"]);
    assert_eq!(changes.flags_changed, vec!["data/a"]);
    assert_eq!(changes.content_changed, vec!["data/b", "z"]);
    let changes = snapshot_changes(&context("data/"), OldNew::new(&old, &new));
    assert_eq!(changes.same, vec!["data/a", "data/b", "z"]);
    assert_eq!(changes.content_changed, vec!["data/b"]);
    let changes = snapshot_changes(&context("nothing"), OldNew::new(&old, &new));
    assert!(changes.content_changed.is_empty());
    assert!(changes.flags_changed.is_empty());
}

#[test]
fn texts_hold_their_parts() {
    assert!(text_contains("dataassets", ""));
    assert!(text_contains("", ""));
    assert!(text_contains("a/dataassets/b", "dataassets"));
    assert!(text_contains("abc", "abc"));
    assert!(text_contains("abc", "c"));
    assert!(!text_contains("abc", "abcd"));
    assert!(!text_contains("abc", "ac"));
}

#[test]
fn reports_are_written_where_they_say_something() {
    let diff = DiffResult::diff_ext("text".to_string());
    assert_eq!(output_name("data/level0", &diff), Some("data/level0.diff".to_string()));
    let binary = DiffResult::from("binary file differs".to_string());
    assert_eq!(output_name("data/a.bin", &binary), Some("data/a.bin".to_string()));
    let empty = DiffResult::diff_ext(String::new());
    assert_eq!(output_name("data/level0", &empty), None);
    let other = DiffResult::new_with_ext("x".to_string(), "txt");
    assert_eq!(output_name("a.json", &other), Some("a.json.txt".to_string()));
}
