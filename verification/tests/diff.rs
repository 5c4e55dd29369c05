use std::collections::HashSet;

use snapshot_diff::cs::{diff_assembly, SourceFile};
use snapshot_diff::diff::{
    classify, diff, diff_or_note, Artifact, ArtifactKind, Context, DiffError, DiffResult, Filter,
};
use snapshot_diff::old_new::OldNew;
use snapshot_diff::unity::{BundleEntry, ContainerFile, Scene};

fn context(decompile: bool) -> Context {
    Context {
        file_filter: String::new(),
        text_diff_context_size: 1,
        json_ignore_regex: None,
        json_ignore_new_default: true,
        json_sort: false,
        cs_decompile_assembly: decompile,
        unity_filter: Filter { ignore_classes: HashSet::new() },
    }
}

#[test]
fn report_nodes_are_built() {
    let node = DiffResult::new_with_ext("text".to_string(), "txt");
    assert_eq!(node.content, "text");
    assert_eq!(node.extension, Some("txt"));
    assert!(node.children.is_empty());
    let node = DiffResult::diff_ext("d".to_string());
    assert_eq!(node.extension, Some("diff"));
    let plain = DiffResult::from("p".to_string());
    assert_eq!(plain.content, "p");
    assert_eq!(plain.extension, None);
    assert!(plain.children.is_empty());
    let parent = node.with_children(vec![("part".to_string(), plain)]);
    assert_eq!(parent.content, "d");
    assert_eq!(parent.extension, Some("diff"));
    assert_eq!(parent.children.len(), 1);
    assert_eq!(parent.children[0].0, "part");
    assert_eq!(parent.children[0].1.content, "p");
}

#[test]
fn artifacts_are_classified() {
    let cx = context(true);
    assert_eq!(classify(&cx, "Assembly-CSharp.dll", Some("dll")), ArtifactKind::Assembly);
    assert_eq!(classify(&context(false), "Assembly-CSharp.dll", Some("dll")), ArtifactKind::Other);
    assert_eq!(classify(&cx, "a.json", Some("json")), ArtifactKind::Structured);
    assert_eq!(classify(&cx, "level0.json", Some("json")), ArtifactKind::Structured);
    assert_eq!(classify(&cx, "sharedassets0.assets", Some("assets")), ArtifactKind::Container);
    assert_eq!(classify(&cx, "globalgamemanagers", None), ArtifactKind::Container);
    assert_eq!(classify(&cx, "unity_default_resources", None), ArtifactKind::Container);
    assert_eq!(classify(&cx, "level0", None), ArtifactKind::Container);
    assert_eq!(classify(&cx, "level12", None), ArtifactKind::Container);
    assert_eq!(classify(&cx, "level+3", None), ArtifactKind::Container);
    assert_eq!(classify(&cx, "level1.bundle", Some("bundle")), ArtifactKind::Bundle);
    assert_eq!(classify(&cx, "level7", Some("bundle")), ArtifactKind::Container);
    assert_eq!(classify(&cx, "scenes.bundle", Some("bundle")), ArtifactKind::Bundle);
    for name in ["level", "levels", "level-1", "level1a", "level 1", "Level1", "xlevel1",
        "level99999999999999999999999", "globalgamemanagers.assets.resS", ""]
    {
        assert_eq!(classify(&cx, name, None), ArtifactKind::Other, "for {:?}", name);
    }
    assert_eq!(classify(&cx, "a.txt", Some("txt")), ArtifactKind::Other);
    assert_eq!(classify(&cx, "a.JSON", Some("JSON")), ArtifactKind::Other);
}

fn content(result: Result<DiffResult, DiffError>) -> (String, Option<&'static str>) {
    let node = result.unwrap();
    assert!(node.children.is_empty());
    (node.content, node.extension)
}

#[test]
fn structured_documents_are_read_and_compared() {
    let cx = context(true);
    let old: &[u8] = br#"{"x":1,"y":[1,2],"f":1.50,"s":"a\"b","big":18446744073709551615,"neg":-3}"#;
    let new: &[u8] = br#"{"y":[1,2,3],"x":2,"f":1.5,"s":"a\"b","big":18446744073709551615,"neg":-4}"#;
    assert_eq!(
        content(diff(&cx, Artifact::Structured(OldNew::new(old, new)))),
        ("  .neg -3 -> -4\n  .x 1 -> 2\n> .y.[2] 3".to_string(), Some("diff"))
    );
    assert_eq!(
        content(diff(&cx, Artifact::Structured(OldNew::new(old, old)))),
        (String::new(), Some("diff"))
    );
    let floats_old: &[u8] = b"[0.1, 1e3, 0.30000000000000004, 1.0]";
    let floats_new: &[u8] = b"[0.2, 1e3, 0.3, 1]";
    assert_eq!(
        content(diff(&cx, Artifact::Structured(OldNew::new(floats_old, floats_new)))),
        (".[0] 0.1 -> 0.2\n.[2] 0.30000000000000004 -> 0.3\n.[3] 1.0 -> 1".to_string(), Some("diff"))
    );
}

#[test]
fn additions_of_zero_in_any_spelling_are_hidden() {
    let cx = context(true);
    let old: &[u8] = br#"{"a":1}"#;
    let new: &[u8] = br#"{"a":1,"f":0.0,"g":-0.0,"h":0e0,"i":0,"j":-0,"k":0.5,"l":1e-9}"#;
    assert_eq!(
        content(diff(&cx, Artifact::Structured(OldNew::new(old, new)))),
        ("> .k 0.5\n> .l 1e-9".to_string(), Some("diff"))
    );
}

#[test]
fn unreadable_documents_fail() {
    let cx = context(true);
    let good: &[u8] = b"{}";
    let bad: &[u8] = b"{";
    let worse: &[u8] = b"nope";
    let result = diff(&cx, Artifact::Structured(OldNew::new(good, bad)));
    let said = match result {
        Err(DiffError::InvalidJson(e)) => e.message,
        Ok(_) => panic!("read a broken document"),
    };
    assert!(said.contains("EOF"), "{}", said);
    let first = match diff(&cx, Artifact::Structured(OldNew::new(worse, bad))) {
        Err(e) => e.describe(),
        Ok(_) => panic!("read a broken document"),
    };
    assert!(first.starts_with("invalid structured document: expected ident"), "{}", first);
    let noted = diff_or_note(&cx, Artifact::Structured(OldNew::new(worse, bad)));
    assert_eq!(noted.content, format!("failed to diff: {}", first));
    assert_eq!(noted.extension, None);
    assert!(noted.children.is_empty());
    let fine = diff_or_note(&cx, Artifact::Structured(OldNew::new(good, b"[]")));
    assert_eq!(fine.content, "Mismatch at root.");
    assert_eq!(fine.extension, Some("diff"));
}

#[test]
fn other_artifacts_are_texts_or_not() {
    let cx = context(true);
    let old: &[u8] = b"a\nb\n";
    let new: &[u8] = b"a\nc\n";
    assert_eq!(
        content(diff(&cx, Artifact::Other(OldNew::new(old, new)))),
        ("@@ -1,2 +1,2 @@\n a\n-b\n+c".to_string(), Some("diff"))
    );
    let binary: &[u8] = &[0, 159, 146, 150];
    assert_eq!(
        content(diff(&cx, Artifact::Other(OldNew::new(old, binary)))),
        ("binary file differs".to_string(), None)
    );
}

#[test]
fn containers_and_archives_are_handed_on() {
    let cx = context(true);
    let old = ContainerFile { header: "a\n".to_string(), scene: Scene::new(vec![]) };
    let new = ContainerFile { header: "b\n".to_string(), scene: Scene::new(vec![]) };
    assert_eq!(
        content(diff(&cx, Artifact::Container(OldNew::new(&old, &new)))),
        ("@@ -1 +1 @@\n-a\n+b\n".to_string(), Some("diff"))
    );
    let entries = vec![BundleEntry { path: "x.resS".to_string(), size: 1, file: None }];
    let grown = vec![BundleEntry { path: "x.resS".to_string(), size: 2, file: None }];
    assert_eq!(
        content(diff(&cx, Artifact::Bundle(OldNew::new(&entries, &grown)))),
        ("=== x.resS ===\nchanged\n".to_string(), Some("diff"))
    );
}

fn source(path: &str, text: &str) -> SourceFile {
    SourceFile { path: path.to_string(), text: text.to_string() }
}

#[test]
fn assemblies_are_compared_by_their_sources() {
    let cx = context(true);
    let old = vec![
        source("Game/Zed.cs", "class Zed {}\n"),
        source("Game/Main.cs", "a\nb\n"),
        source("Same.cs", "same\n"),
        source(".csproj", "old project"),
        source("Game/.csproj", "old project"),
        source("Gone.cs", "x"),
    ];
    let new = vec![
        source("Same.cs", "same\n"),
        source("Game/Main.cs", "a\nc\n"),
        source("Game/Zed.cs", "class Zed { }\n"),
        source("Fresh.cs", "y"),
        source("Also.cs", "y"),
        source(".csproj", "new project"),
        source("Game/.csproj", "new project"),
    ];
    let report = diff_assembly(&cx, OldNew::new(&old, &new));
    assert_eq!(
        report.content,
        "Added Also.cs\nAdded Fresh.cs\nRemoved Gone.cs\nChanged: Game/Main.cs\nChanged: Game/Zed.cs\n"
    );
    assert_eq!(report.extension, Some("diff"));
    assert_eq!(report.children.len(), 2);
    assert_eq!(report.children[0].0, "Game/Main.cs");
    assert_eq!(report.children[0].1.content, "@@ -1,2 +1,2 @@\n a\n-b\n+c");
    assert_eq!(report.children[0].1.extension, Some("diff"));
    assert!(report.children[0].1.children.is_empty());
    assert_eq!(report.children[1].0, "Game/Zed.cs");
    assert_eq!(report.children[1].1.content, "@@ -1 +1 @@\n-class Zed {}\n+class Zed { }");
    let through = diff(&cx, Artifact::Assembly(OldNew::new(&old, &new))).unwrap();
    assert_eq!(through.content, report.content);
    assert_eq!(through.children.len(), 2);
    let old = vec![source("a-b/x.cs", "1"), source("a/x.cs", "1"), source("a/b/y.cs", "1"), source("a.cs", "1")];
    let new = vec![source("a.cs", "2"), source("a/b/y.cs", "2"), source("a/x.cs", "2"), source("a-b/x.cs", "2"), source("a", "3")];
    let ordered = diff_assembly(&cx, OldNew::new(&old, &new));
    assert_eq!(
        ordered.content,
        "Added a\nChanged: a/b/y.cs\nChanged: a/x.cs\nChanged: a-b/x.cs\nChanged: a.cs\n"
    );
    let names: Vec<&str> = ordered.children.iter().map(|c| c.0.as_str()).collect();
    assert_eq!(names, vec!["a/b/y.cs", "a/x.cs", "a-b/x.cs", "a.cs"]);
    let mut by_components: Vec<std::path::PathBuf> =
        names.iter().map(std::path::PathBuf::from).collect();
    by_components.sort();
    assert_eq!(by_components, names.iter().map(std::path::PathBuf::from).collect::<Vec<_>>());
    let old = vec![
        source("Game/Zed.cs", "class Zed {}\n"),
        source("Same.cs", "same\n"),
        source(".csproj", "old project"),
    ];
    let nothing = diff_assembly(&cx, OldNew::new(&old, &old));
    assert_eq!(nothing.content, "");
    assert!(nothing.children.is_empty());
}
