use crate::depotdownloader_manifest::{files_view, FileView, Manifest, ManifestFile};
use crate::diff::{Context, DiffResult, ReportView};
use crate::names::{
    added_names, common_names, name_changes, names_view, removed_names,
};
use crate::old_new::OldNew;
use crate::text::{chars_of, holds_at, push_char, str_equal};
use vstd::prelude::*;
use vstd::string::StringExecFns;

verus! {

/// The paths of the files, in the order of the listing.
pub open spec fn file_paths(files: Seq<FileView>) -> Seq<Seq<char>> {
    files.map_values(|f: FileView| f.path)
}

/// The position of the last of the first `upto` files at `path`, or -1 if
/// there is none.
pub open spec fn last_at_path(files: Seq<FileView>, path: Seq<char>, upto: int) -> int
    decreases upto,
{
    if upto <= 0 || upto > files.len() {
        -1
    } else if files[upto - 1].path == path {
        upto - 1
    } else {
        last_at_path(files, path, upto - 1)
    }
}

/// Whether `part` stands somewhere in `text`.
pub open spec fn contains_text(text: Seq<char>, part: Seq<char>) -> bool {
    exists|i: int| 0 <= i && i + part.len() <= text.len() && #[trigger] text.subrange(
        i,
        i + part.len(),
    ) == part
}

/// Whether the file at `path` is looked at: its path holds the text that
/// the context filters by, and both manifests list it.
pub open spec fn looked_at(cx: Context, old: Seq<FileView>, new: Seq<FileView>, path: Seq<char>)
    -> bool {
    &&& contains_text(path, cx.file_filter@)
    &&& last_at_path(old, path, old.len() as int) >= 0
    &&& last_at_path(new, path, new.len() as int) >= 0
}

/// Whether the flags of the file at `path` differ between the manifests.
/// Where a manifest lists a path twice, its last line counts.
pub open spec fn flags_differ(cx: Context, old: Seq<FileView>, new: Seq<FileView>, path: Seq<char>)
    -> bool {
    looked_at(cx, old, new, path) && old[last_at_path(old, path, old.len() as int)].flags
        != new[last_at_path(new, path, new.len() as int)].flags
}

/// Whether the content of the file at `path` differs between the
/// manifests, going by the hashes.
pub open spec fn content_differs(
    cx: Context,
    old: Seq<FileView>,
    new: Seq<FileView>,
    path: Seq<char>,
) -> bool {
    looked_at(cx, old, new, path) && old[last_at_path(old, path, old.len() as int)].sha
        != new[last_at_path(new, path, new.len() as int)].sha
}

/// The first `upto` of `paths` whose flags (`of_content` not set) or whose
/// content (`of_content` set) differ between the manifests.
pub open spec fn differing(
    cx: Context,
    old: Seq<FileView>,
    new: Seq<FileView>,
    paths: Seq<Seq<char>>,
    of_content: bool,
    upto: int,
) -> Seq<Seq<char>>
    decreases upto,
{
    if upto <= 0 || upto > paths.len() {
        Seq::empty()
    } else {
        let head = differing(cx, old, new, paths, of_content, upto - 1);
        let path = paths[upto - 1];
        let differs = if of_content {
            content_differs(cx, old, new, path)
        } else {
            flags_differ(cx, old, new, path)
        };
        if differs {
            head.push(path)
        } else {
            head
        }
    }
}

/// How the files of two snapshots relate: the paths that were removed, those
/// that were added and those that both have; and of the last, those whose
/// flags changed and those whose content changed. Each list is in the order
/// of a dictionary.
#[derive(Debug)]
pub struct SnapshotChanges {
    pub removed: Vec<String>,
    pub added: Vec<String>,
    pub same: Vec<String>,
    pub flags_changed: Vec<String>,
    pub content_changed: Vec<String>,
}

/// Whether `part` stands somewhere in `text`.
pub fn text_contains(text: &str, part: &str) -> (found: bool)
    ensures
        found == contains_text(text@, part@),
{
    let chars = chars_of(text);
    let wanted = chars_of(part);
    if wanted.len() > chars.len() {
        return false;
    }
    let last = chars.len() - wanted.len();
    let mut i: usize = 0;
    loop
        invariant
            wanted.len() <= chars.len(),
            last == chars.len() - wanted.len(),
            i <= last,
            chars@ == text@,
            wanted@ == part@,
            forall|k: int|
                0 <= k < i ==> #[trigger] chars@.subrange(k, k + wanted.len()) != wanted@,
        ensures
            !contains_text(text@, part@),
        decreases last - i,
    {
        if holds_at(&chars, i, &wanted) {
            assert(text@.subrange(i as int, i + part@.len()) == part@);
            return true;
        }
        if i == last {
            break ;
        }
        i += 1;
    }
    false
}

/// What a manifest's last line for `path` says of the file.
pub fn find_file<'a>(files: &'a Vec<(String, ManifestFile)>, path: &str) -> (found: Option<
    &'a ManifestFile,
>)
    ensures
        match found {
            Some(f) => {
                let i = last_at_path(files_view(files@), path@, files.len() as int);
                &&& 0 <= i < files.len()
                &&& f.size == files_view(files@)[i].size
                &&& f.flags == files_view(files@)[i].flags
                &&& f.sha@ == files_view(files@)[i].sha
            },
            None => last_at_path(files_view(files@), path@, files.len() as int) < 0,
        },
{
    let ghost all = files_view(files@);
    let mut upto: usize = files.len();
    while upto > 0
        invariant
            upto <= files.len(),
            all == files_view(files@),
            last_at_path(all, path@, files.len() as int) == last_at_path(all, path@, upto as int),
        decreases upto,
    {
        if str_equal(files[upto - 1].0.as_str(), path) {
            return Some(&files[upto - 1].1);
        }
        upto -= 1;
    }
    None
}

/// The paths of the files, in the order of the listing.
fn paths_of_files(files: &Vec<(String, ManifestFile)>) -> (paths: Vec<String>)
    ensures
        names_view(paths@) == file_paths(files_view(files@)),
{
    let mut paths: Vec<String> = Vec::new();
    let mut i: usize = 0;
    while i < files.len()
        invariant
            i <= files.len(),
            paths.len() == i,
            forall|k: int| 0 <= k < i ==> (#[trigger] paths[k])@ == files[k].0@,
        decreases files.len() - i,
    {
        paths.push(files[i].0.clone());
        i += 1;
    }
    proof {
        assert(names_view(paths@) =~= file_paths(files_view(files@)));
    }
    paths
}

/// Classifies the files of two snapshots by their manifests.
pub fn snapshot_changes(cx: &Context, manifests: OldNew<&Manifest>) -> (changes: SnapshotChanges)
    ensures
        ({
            let old = manifests.old@.files;
            let new = manifests.new@.files;
            let same = common_names(file_paths(old), file_paths(new));
            &&& names_view(changes.removed@) == removed_names(file_paths(old), file_paths(new))
            &&& names_view(changes.added@) == added_names(file_paths(old), file_paths(new))
            &&& names_view(changes.same@) == same
            &&& names_view(changes.flags_changed@) == differing(
                *cx,
                old,
                new,
                same,
                false,
                same.len() as int,
            )
            &&& names_view(changes.content_changed@) == differing(
                *cx,
                old,
                new,
                same,
                true,
                same.len() as int,
            )
        }),
{
    let ghost old = manifests.old@.files;
    let ghost new = manifests.new@.files;
    let old_paths = paths_of_files(&manifests.old.files);
    let new_paths = paths_of_files(&manifests.new.files);
    let listed = name_changes(&old_paths, &new_paths);
    let ghost same = names_view(listed.same@);
    let mut flags_changed: Vec<String> = Vec::new();
    let mut content_changed: Vec<String> = Vec::new();
    let mut i: usize = 0;
    proof {
        assert(names_view(flags_changed@) =~= Seq::<Seq<char>>::empty());
        assert(names_view(content_changed@) =~= Seq::<Seq<char>>::empty());
    }
    while i < listed.same.len()
        invariant
            i <= listed.same.len(),
            same == names_view(listed.same@),
            old == files_view(manifests.old.files@),
            new == files_view(manifests.new.files@),
            names_view(flags_changed@) == differing(*cx, old, new, same, false, i as int),
            names_view(content_changed@) == differing(*cx, old, new, same, true, i as int),
        decreases listed.same.len() - i,
    {
        let path = &listed.same[i];
        proof {
            assert(same[i as int] == path@);
        }
        if text_contains(path.as_str(), cx.file_filter.as_str()) {
            match (
                find_file(&manifests.old.files, path.as_str()),
                find_file(&manifests.new.files, path.as_str()),
            ) {
                (Some(a), Some(b)) => {
                    if a.flags != b.flags {
                        let copy = path.clone();
                        proof {
                            assert(names_view(flags_changed@.push(copy)) =~= names_view(
                                flags_changed@,
                            ).push(copy@));
                        }
                        flags_changed.push(copy);
                    }
                    if !str_equal(a.sha.as_str(), b.sha.as_str()) {
                        let copy = path.clone();
                        proof {
                            assert(names_view(content_changed@.push(copy)) =~= names_view(
                                content_changed@,
                            ).push(copy@));
                        }
                        content_changed.push(copy);
                    }
                },
                _ => {},
            }
        }
        i += 1;
    }
    SnapshotChanges {
        removed: listed.removed,
        added: listed.added,
        same: listed.same,
        flags_changed,
        content_changed,
    }
}

/// The name of the file that a report on the artifact at `path` is written
/// to: none where the report is empty; else the path, with the report's
/// extension added behind a dot where it has one.
pub open spec fn report_name(path: Seq<char>, report: ReportView) -> Option<Seq<char>> {
    if report.content.len() == 0 {
        None
    } else {
        match report.extension {
            Some(extension) => Some(path + seq!['.'] + extension),
            None => Some(path),
        }
    }
}

/// The name of the file that a report on the artifact at `path` is written
/// to, if it is written at all.
pub fn output_name(path: &str, report: &DiffResult) -> (name: Option<String>)
    ensures
        match name {
            Some(n) => report_name(path@, report@) == Some(n@),
            None => report_name(path@, report@) is None,
        },
{
    if report.content.as_str().is_empty() {
        return None;
    }
    let mut name = String::from_str(path);
    match report.extension {
        Some(extension) => {
            push_char(&mut name, '.');
            name.append(extension);
        },
        None => {},
    }
    Some(name)
}

} // verus!
