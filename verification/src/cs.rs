use crate::diff::{diff_text, text_report, Context, DiffResult, ReportChild, ReportView};
use crate::names::{
    added_names, common_names, name_changes, names_view, removed_names,
};
use crate::old_new::OldNew;
use crate::text::{
    ends_with, push_char, replace_char, replaced, str_equal, text_before, text_ends_with,
};
use vstd::prelude::*;
use vstd::string::StringExecFns;

verus! {

/// A decompiled source file as mathematics sees it.
pub struct SourceView {
    pub path: Seq<char>,
    pub text: Seq<char>,
}

/// One file of the decompiled sources of an assembly: its path below the
/// root of the sources, and its text.
pub struct SourceFile {
    pub path: String,
    pub text: String,
}

impl View for SourceFile {
    type V = SourceView;

    open spec fn view(&self) -> SourceView {
        SourceView { path: self.path@, text: self.text@ }
    }
}

/// The sources that a list of source files stands for.
pub open spec fn sources_view(sources: Seq<SourceFile>) -> Seq<SourceView> {
    sources.map_values(|s: SourceFile| s@)
}

/// Whether the file at `path` is the project file that the decompiler
/// writes beside the sources; it is no source.
pub open spec fn is_project_file(path: Seq<char>) -> bool {
    path == ".csproj"@ || ends_with(path, "/.csproj"@)
}

/// The key that a path is ordered by: the path with the character of code
/// zero in place of each slash. Keys in the order of a dictionary are paths
/// in the order of their components: where two paths part ways, the one
/// whose component ends there comes first, and else the one whose character
/// comes first.
pub open spec fn path_key(path: Seq<char>) -> Seq<char> {
    replaced(path, '/', '\u{0}')
}

/// The path that a key stands for: the key with a slash in place of each
/// character of code zero.
pub open spec fn key_path(key: Seq<char>) -> Seq<char> {
    replaced(key, '\u{0}', '/')
}

/// No slash is lost on the way from a path to its key and back: a path
/// without a character of code zero is the path that its key stands for.
pub proof fn lemma_key_keeps_path(path: Seq<char>)
    requires
        !path.contains('\u{0}'),
    ensures
        key_path(path_key(path)) == path,
{
    assert forall|i: int| 0 <= i < path.len() implies key_path(path_key(path))[i] == path[i] by {
        assert(path.contains(path[i]));
    }
    assert(key_path(path_key(path)) =~= path);
}

/// Of two paths that part ways where a component of the one ends and the
/// same component of the other goes on, the one whose component ends comes
/// first, whatever the character is with which the other goes on. So
/// `a/x.cs` comes before `a-b/x.cs`.
pub proof fn lemma_shorter_component_first(
    start: Seq<char>,
    rest: Seq<char>,
    c: char,
    other: Seq<char>,
)
    requires
        c != '/',
        c != '\u{0}',
    ensures
        text_before(
            path_key(start + seq!['/'] + rest),
            path_key(start + seq![c] + other),
        ),
    decreases start.len(),
{
    let a = path_key(start + seq!['/'] + rest);
    let b = path_key(start + seq![c] + other);
    if start.len() == 0 {
        assert(a[0] == '\u{0}');
        assert(b[0] == c);
    } else {
        let tail = start.drop_first();
        assert(a[0] == b[0]);
        assert(a.drop_first() =~= path_key(tail + seq!['/'] + rest));
        assert(b.drop_first() =~= path_key(tail + seq![c] + other));
        lemma_shorter_component_first(tail, rest, c, other);
    }
}

/// The keys of the first `upto` files that are sources, in order.
pub open spec fn source_keys(sources: Seq<SourceView>, upto: int) -> Seq<Seq<char>>
    decreases upto,
{
    if upto <= 0 || upto > sources.len() {
        Seq::empty()
    } else if is_project_file(sources[upto - 1].path) {
        source_keys(sources, upto - 1)
    } else {
        source_keys(sources, upto - 1).push(path_key(sources[upto - 1].path))
    }
}

/// The text of the first file whose path has the key `key`, from position
/// `from` on; the empty text if there is none.
pub open spec fn source_text(sources: Seq<SourceView>, key: Seq<char>, from: int) -> Seq<char>
    decreases sources.len() - from,
{
    if from < 0 || from >= sources.len() {
        Seq::empty()
    } else if path_key(sources[from].path) == key {
        sources[from].text
    } else {
        source_text(sources, key, from + 1)
    }
}

/// One line for each of the first `upto` keys: the word `what`, the path
/// that the key stands for, and a line feed.
pub open spec fn listed_lines(what: Seq<char>, keys: Seq<Seq<char>>, upto: int) -> Seq<char>
    decreases upto,
{
    if upto <= 0 || upto > keys.len() {
        Seq::empty()
    } else {
        listed_lines(what, keys, upto - 1) + what + key_path(keys[upto - 1]) + seq!['\n']
    }
}

/// What differs between the two versions of the source whose path has the
/// key `key`.
pub open spec fn source_change(
    cx: Context,
    old: Seq<SourceView>,
    new: Seq<SourceView>,
    key: Seq<char>,
) -> Seq<char> {
    text_report(source_text(old, key, 0), source_text(new, key, 0), cx.text_diff_context_size)
}

/// One line for each of the first `upto` of the sources with the keys
/// `paths` that differs between the two versions.
pub open spec fn changed_lines(
    cx: Context,
    old: Seq<SourceView>,
    new: Seq<SourceView>,
    paths: Seq<Seq<char>>,
    upto: int,
) -> Seq<char>
    decreases upto,
{
    if upto <= 0 || upto > paths.len() {
        Seq::empty()
    } else {
        let head = changed_lines(cx, old, new, paths, upto - 1);
        if source_change(cx, old, new, paths[upto - 1]).len() > 0 {
            head + "Changed: "@ + key_path(paths[upto - 1]) + seq!['\n']
        } else {
            head
        }
    }
}

/// For each of the first `upto` of the sources with the keys `paths` that
/// differs between the two versions, a report of what differs, under its
/// path.
pub open spec fn changed_children(
    cx: Context,
    old: Seq<SourceView>,
    new: Seq<SourceView>,
    paths: Seq<Seq<char>>,
    upto: int,
) -> Seq<ReportChild>
    decreases upto,
{
    if upto <= 0 || upto > paths.len() {
        Seq::empty()
    } else {
        let head = changed_children(cx, old, new, paths, upto - 1);
        let change = source_change(cx, old, new, paths[upto - 1]);
        if change.len() > 0 {
            head.push(
                ReportChild {
                    name: key_path(paths[upto - 1]),
                    node: ReportView {
                        content: change,
                        extension: Some("diff"@),
                        children: Seq::empty(),
                    },
                },
            )
        } else {
            head
        }
    }
}

/// The report on the decompiled sources of two versions of an assembly:
/// the sources that were added, those that were removed and those that
/// differ, each group in the order of the paths, component by component,
/// and for each source that differs a part that holds what differs.
pub open spec fn assembly_report(cx: Context, old: Seq<SourceView>, new: Seq<SourceView>)
    -> ReportView {
    let old_paths = source_keys(old, old.len() as int);
    let new_paths = source_keys(new, new.len() as int);
    let added = added_names(old_paths, new_paths);
    let removed = removed_names(old_paths, new_paths);
    let same = common_names(old_paths, new_paths);
    ReportView {
        content: listed_lines("Added "@, added, added.len() as int) + listed_lines(
            "Removed "@,
            removed,
            removed.len() as int,
        ) + changed_lines(cx, old, new, same, same.len() as int),
        extension: Some("diff"@),
        children: changed_children(cx, old, new, same, same.len() as int),
    }
}

/// The keys of the files that are sources, in order.
fn keys_of(sources: &Vec<SourceFile>) -> (paths: Vec<String>)
    ensures
        names_view(paths@) == source_keys(sources_view(sources@), sources.len() as int),
{
    let ghost all = sources_view(sources@);
    let mut paths: Vec<String> = Vec::new();
    let mut i: usize = 0;
    proof {
        assert(names_view(paths@) =~= Seq::<Seq<char>>::empty());
    }
    while i < sources.len()
        invariant
            i <= sources.len(),
            all == sources_view(sources@),
            names_view(paths@) == source_keys(all, i as int),
        decreases sources.len() - i,
    {
        let path = &sources[i].path;
        proof {
            assert(all[i as int].path == path@);
        }
        let project = str_equal(path.as_str(), ".csproj") || text_ends_with(
            path.as_str(),
            "/.csproj",
        );
        if !project {
            let copy = replace_char(path.as_str(), '/', '\u{0}');
            proof {
                assert(names_view(paths@.push(copy)) =~= names_view(paths@).push(copy@));
            }
            paths.push(copy);
        }
        i += 1;
    }
    paths
}

/// The text of the first file whose path has the key `path`.
fn text_at<'a>(sources: &'a Vec<SourceFile>, path: &str) -> (text: &'a str)
    ensures
        text@ == source_text(sources_view(sources@), path@, 0),
{
    let ghost all = sources_view(sources@);
    let mut i: usize = 0;
    while i < sources.len()
        invariant
            i <= sources.len(),
            all == sources_view(sources@),
            source_text(all, path@, 0) == source_text(all, path@, i as int),
        decreases sources.len() - i,
    {
        proof {
            assert(all[i as int] == sources[i as int]@);
        }
        let key = replace_char(sources[i].path.as_str(), '/', '\u{0}');
        if str_equal(key.as_str(), path) {
            return sources[i].text.as_str();
        }
        i += 1;
    }
    proof {
        reveal_strlit("");
        assert(""@ =~= Seq::<char>::empty());
    }
    ""
}

/// Appends to `out` one line for each key: the word `what`, the path that
/// the key stands for, and a line feed.
fn push_listed(out: &mut String, what: &str, names: &Vec<String>)
    ensures
        final(out)@ == old(out)@ + listed_lines(what@, names_view(names@), names.len() as int),
{
    let ghost all = names_view(names@);
    let mut i: usize = 0;
    proof {
        assert(out@ + Seq::<char>::empty() =~= out@);
    }
    while i < names.len()
        invariant
            i <= names.len(),
            all == names_view(names@),
            out@ == old(out)@ + listed_lines(what@, all, i as int),
        decreases names.len() - i,
    {
        let ghost head = listed_lines(what@, all, i as int);
        out.append(what);
        out.append(replace_char(names[i].as_str(), '\u{0}', '/').as_str());
        push_char(out, '\n');
        proof {
            assert(all[i as int] == names[i as int]@);
            assert(out@ =~= old(out)@ + (head + what@ + key_path(all[i as int]) + seq!['\n']));
        }
        i += 1;
    }
}

/// Compares the decompiled sources of two versions of an assembly. The
/// sources are taken in the order of their paths, component by component.
pub fn diff_assembly(cx: &Context, sources: OldNew<&Vec<SourceFile>>) -> (report: DiffResult)
    ensures
        report@ == assembly_report(*cx, sources_view(sources.old@), sources_view(sources.new@)),
{
    let ghost old_all = sources_view(sources.old@);
    let ghost new_all = sources_view(sources.new@);
    let old_paths = keys_of(sources.old);
    let new_paths = keys_of(sources.new);
    let changes = name_changes(&old_paths, &new_paths);
    let ghost same = names_view(changes.same@);
    let mut text = String::new();
    push_listed(&mut text, "Added ", &changes.added);
    push_listed(&mut text, "Removed ", &changes.removed);
    let ghost listed = text@;
    let mut children: Vec<(String, DiffResult)> = Vec::new();
    let ghost kids = Seq::<ReportChild>::empty();
    let mut i: usize = 0;
    proof {
        assert(text@ + Seq::<char>::empty() =~= text@);
    }
    while i < changes.same.len()
        invariant
            i <= changes.same.len(),
            same == names_view(changes.same@),
            old_all == sources_view(sources.old@),
            new_all == sources_view(sources.new@),
            text@ == listed + changed_lines(*cx, old_all, new_all, same, i as int),
            kids == changed_children(*cx, old_all, new_all, same, i as int),
            children.len() == kids.len(),
            forall|k: int|
                0 <= k < children.len() ==> (#[trigger] children[k]).0@ == kids[k].name
                    && children[k].1@ == kids[k].node,
        decreases changes.same.len() - i,
    {
        let path = &changes.same[i];
        let ghost head = changed_lines(*cx, old_all, new_all, same, i as int);
        proof {
            assert(same[i as int] == path@);
        }
        let diff = diff_text(
            cx,
            OldNew::new(text_at(sources.old, path.as_str()), text_at(sources.new, path.as_str())),
        );
        if !diff.as_str().is_empty() {
            let shown = replace_char(path.as_str(), '\u{0}', '/');
            text.append("Changed: ");
            text.append(shown.as_str());
            push_char(&mut text, '\n');
            proof {
                assert(text@ =~= listed + (head + "Changed: "@ + shown@ + seq!['\n']));
            }
            let child = DiffResult::new_with_ext(diff, "diff");
            proof {
                kids = kids.push(ReportChild { name: shown@, node: child@ });
            }
            children.push((shown, child));
        }
        i += 1;
    }
    let report = DiffResult::diff_ext(text).with_children(children);
    proof {
        assert(report@.children =~= kids);
    }
    report
}

} // verus!
