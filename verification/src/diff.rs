use crate::cs::{assembly_report, diff_assembly, sources_view, SourceFile};
use crate::json::{json_parse, read_document, JsonError};
use crate::json_diff::{diff_json, json_report};
use crate::old_new::OldNew;
use crate::text::{
    chars_of, holds_at, lines_of, lines_view, numeral, push_char, read_numeral, split_lines,
    starts_with, str_equal,
};
use crate::unity::{
    bundle_report, diff_bundlefile, diff_serializedfile, entries_view, serialized_report,
    BundleEntry, ContainerFile,
};
use std::collections::HashSet;
use vstd::prelude::*;
use vstd::string::StringExecFns;
use vstd::utf8::{decode_utf8, encode_utf8, valid_utf8};

verus! {

/// `regex::Regex`, a compiled pattern.
#[verifier::external_type_specification]
#[verifier::external_body]
pub struct ExRegex(regex::Regex);

/// The texts that a compiled pattern matches somewhere in.
pub uninterp spec fn regex_language(pattern: regex::Regex) -> Set<Seq<char>>;

/// Whether a compiled pattern matches somewhere in a text.
pub open spec fn regex_accepts(pattern: regex::Regex, text: Seq<char>) -> bool {
    regex_language(pattern).contains(text)
}

/// `Regex::is_match`: whether the pattern matches somewhere in the text,
/// which depends on the pattern and the text alone.
#[verifier::external_body]
pub(crate) fn pattern_matches(pattern: &regex::Regex, text: &str) -> (hit: bool)
    ensures
        hit == regex_language(*pattern).contains(text@),
{
    pattern.is_match(text)
}

/// Which kinds of component a comparison passes over.
pub struct Filter {
    pub ignore_classes: HashSet<i32>,
}

impl Filter {
    /// Whether components of the kind with the given number are looked at.
    pub fn matches(&self, class_id: i32) -> (looked_at: bool)
        ensures
            looked_at == !self.ignore_classes@.contains(class_id),
    {
        !self.ignore_classes.contains(&class_id)
    }
}

/// What a comparison is told once and then only reads.
pub struct Context {
    /// Only artifacts whose path contains this text are compared.
    pub file_filter: String,
    /// How many unchanged lines a text diff shows around a change.
    pub text_diff_context_size: usize,
    /// Differences whose path matches this pattern are passed over.
    pub json_ignore_regex: Option<regex::Regex>,
    /// Whether additions of values that an uninitialised field would hold
    /// are passed over.
    pub json_ignore_new_default: bool,
    /// Whether the keys of objects are put in order before the comparison.
    pub json_sort: bool,
    /// Whether assemblies are compared by their decompiled sources.
    pub cs_decompile_assembly: bool,
    /// Which kinds of component are passed over.
    pub unity_filter: Filter,
}

/// The patch that the text diff crate prints for two texts: a header of
/// two lines, then the changed lines in hunks, each with up to `context_len`
/// unchanged lines around it.
pub uninterp spec fn patch_text(old: Seq<char>, new: Seq<char>, context_len: usize) -> Seq<char>;

/// `DiffOptions::create_patch` with the given number of context lines,
/// printed by `PatchFormatter::fmt_patch` without the note on a missing
/// final newline. The text depends on the two texts and the number alone.
#[verifier::external_body]
fn unified_patch(old: &str, new: &str, context_len: usize) -> (text: String)
    ensures
        text@ == patch_text(old@, new@, context_len),
{
    let patch = diffy::DiffOptions::new().set_context_len(context_len).create_patch(old, new);
    let formatter = diffy::PatchFormatter::new().missing_newline_message(false);
    let text = formatter.fmt_patch(&patch).to_string();
    text
}

/// `std::str::from_utf8`: the text that the bytes encode, if they are
/// valid UTF-8.
#[verifier::external_body]
fn utf8_text(bytes: &[u8]) -> (text: Option<&str>)
    ensures
        text is Some <==> valid_utf8(bytes@),
        text matches Some(t) ==> t@ == decode_utf8(bytes@),
{
    std::str::from_utf8(bytes).ok()
}

/// The lines from `from` up to but not including `upto`, with one line feed
/// between two lines.
pub open spec fn joined(lines: Seq<Seq<char>>, from: int, upto: int) -> Seq<char>
    decreases upto - from,
{
    if upto <= from {
        Seq::empty()
    } else if upto == from + 1 {
        lines[from]
    } else {
        joined(lines, from, upto - 1).push('\n') + lines[upto - 1]
    }
}

/// A text without its first two lines; the lines that stay are set apart by
/// single line feeds.
pub open spec fn without_header(text: Seq<char>) -> Seq<char> {
    let lines = lines_of(text);
    joined(lines, 2, lines.len() as int)
}

/// The size in bytes from which on two texts are not compared line by line.
pub const TEXT_DIFF_LIMIT: usize = 1048576;

/// What a report says of two texts. If both are shorter than the limit, the
/// hunks of their patch, without the patch's header. If not, the two texts
/// themselves.
pub open spec fn text_report(old: Seq<char>, new: Seq<char>, context_len: usize) -> Seq<char> {
    if encode_utf8(old).len() < TEXT_DIFF_LIMIT && encode_utf8(new).len() < TEXT_DIFF_LIMIT {
        without_header(patch_text(old, new, context_len))
    } else {
        "old: "@ + old + "\nnew: "@ + new
    }
}

/// A text without its first two lines.
fn strip_header(text: &str) -> (stripped: String)
    ensures
        stripped@ == without_header(text@),
{
    let lines = split_lines(text);
    let ghost all = lines_view(lines@);
    let mut out = String::new();
    let mut i: usize = 2;
    while i < lines.len()
        invariant
            2 <= i,
            all == lines_view(lines@),
            i <= lines.len() || (lines.len() < 2 && i == 2),
            out@ == joined(all, 2, i as int),
        decreases lines.len() - i,
    {
        if i > 2 {
            push_char(&mut out, '\n');
        }
        let line = &lines[i];
        let ghost start = out@;
        let mut k: usize = 0;
        proof {
            assert(all[i as int] == line@);
            assert(start + line@.take(0) =~= start);
        }
        while k < line.len()
            invariant
                k <= line.len(),
                out@ == start + line@.take(k as int),
            decreases line.len() - k,
        {
            push_char(&mut out, line[k]);
            proof {
                assert(line@.take(k as int + 1) =~= line@.take(k as int).push(line[k as int]));
                assert(start + line@.take(k as int).push(line[k as int]) =~= (start + line@.take(
                    k as int,
                )).push(line[k as int]));
            }
            k += 1;
        }
        proof {
            assert(line@.take(line.len() as int) =~= line@);
            assert(Seq::<char>::empty() + line@ =~= line@);
        }
        i += 1;
    }
    proof {
        if lines.len() < 2 {
            assert(joined(all, 2, lines.len() as int) == Seq::<char>::empty());
        }
    }
    out
}

/// Compares two texts line by line, showing `context_len` unchanged lines
/// around each change, unless one of them is as long as the limit or
/// longer: then the two texts are shown as they are.
pub fn diff_text_context(data: OldNew<&str>, context_len: usize) -> (text: String)
    ensures
        text@ == text_report(data.old@, data.new@, context_len),
{
    if data.old.as_bytes().len() < TEXT_DIFF_LIMIT && data.new.as_bytes().len() < TEXT_DIFF_LIMIT {
        let patch = unified_patch(data.old, data.new, context_len);
        strip_header(patch.as_str())
    } else {
        let mut text = String::from_str("old: ");
        text.append(data.old);
        text.append("\nnew: ");
        text.append(data.new);
        assert(text@ =~= "old: "@ + data.old@ + "\nnew: "@ + data.new@);
        text
    }
}

/// Compares two texts line by line with the context that `cx` asks for.
pub fn diff_text(cx: &Context, data: OldNew<&str>) -> (text: String)
    ensures
        text@ == text_report(data.old@, data.new@, cx.text_diff_context_size),
{
    diff_text_context(data, cx.text_diff_context_size)
}

/// Compares two lists of bytes as texts, if both are valid UTF-8.
pub fn try_diff_text(cx: &Context, data: OldNew<&[u8]>) -> (text: Option<String>)
    ensures
        match text {
            Some(t) => valid_utf8(data.old@) && valid_utf8(data.new@) && t@ == text_report(
                decode_utf8(data.old@),
                decode_utf8(data.new@),
                cx.text_diff_context_size,
            ),
            None => !(valid_utf8(data.old@) && valid_utf8(data.new@)),
        },
{
    match utf8_text(data.old) {
        Some(old) => match utf8_text(data.new) {
            Some(new) => Some(diff_text(cx, OldNew::new(old, new))),
            None => None,
        },
        None => None,
    }
}

/// A node of a report as mathematics sees it.
pub struct ReportView {
    pub content: Seq<char>,
    pub extension: Option<Seq<char>>,
    pub children: Seq<ReportChild>,
}

/// A named part of a report.
pub struct ReportChild {
    pub name: Seq<char>,
    pub node: ReportView,
}

/// A node of a report: the text of a comparison, the extension of the file
/// it is to be written to where it has a format, and the reports on the
/// parts of what was compared, each under the path of its part.
pub struct DiffResult {
    pub content: String,
    pub extension: Option<&'static str>,
    pub children: Vec<(String, DiffResult)>,
}

impl View for DiffResult {
    type V = ReportView;

    open spec fn view(&self) -> ReportView
        decreases self,
    {
        ReportView {
            content: self.content@,
            extension: match self.extension {
                Some(e) => Some(e@),
                None => None,
            },
            children: Seq::new(
                self.children@.len(),
                |i: int|
                    if 0 <= i < self.children@.len() {
                        ReportChild { name: self.children[i].0@, node: self.children[i].1.view() }
                    } else {
                        ReportChild {
                            name: Seq::empty(),
                            node: ReportView {
                                content: Seq::empty(),
                                extension: None,
                                children: Seq::empty(),
                            },
                        }
                    },
            ),
        }
    }
}

impl DiffResult {
    /// A report without parts, to be written with the given extension.
    pub fn new_with_ext(content: String, extension: &'static str) -> (node: Self)
        ensures
            node@ == (ReportView {
                content: content@,
                extension: Some(extension@),
                children: Seq::empty(),
            }),
    {
        let node = DiffResult { content, extension: Some(extension), children: Vec::new() };
        assert(node@.children =~= Seq::empty());
        node
    }

    /// A report without parts, to be written as a diff.
    pub fn diff_ext(content: String) -> (node: Self)
        ensures
            node@ == (ReportView {
                content: content@,
                extension: Some("diff"@),
                children: Seq::empty(),
            }),
    {
        DiffResult::new_with_ext(content, "diff")
    }

    /// The same report with the given parts in place of its own.
    pub fn with_children(self, children: Vec<(String, DiffResult)>) -> (node: Self)
        ensures
            node.content == self.content,
            node.extension == self.extension,
            node.children == children,
    {
        let mut node = self;
        node.children = children;
        node
    }
}

impl From<String> for DiffResult {
    /// A report without parts and without a format.
    fn from(content: String) -> (node: Self)
        ensures
            node@ == (ReportView { content: content@, extension: None, children: Seq::empty() }),
    {
        let node = DiffResult { content, extension: None, children: Vec::new() };
        assert(node@.children =~= Seq::empty());
        node
    }
}

impl vstd::std_specs::convert::FromSpecImpl<String> for DiffResult {
    open spec fn obeys_from_spec() -> bool {
        false
    }

    open spec fn from_spec(content: String) -> Self {
        arbitrary()
    }
}

/// By which comparison an artifact is compared.
#[derive(Debug, Clone, Copy, PartialEq, Eq, Structural)]
pub enum ArtifactKind {
    /// An assembly, compared by its decompiled sources.
    Assembly,
    /// A structured document, compared value by value.
    Structured,
    /// A container file, compared node by node.
    Container,
    /// An archive of container files, compared entry by entry.
    Bundle,
    /// Anything else, compared as text where it is text.
    Other,
}

/// Whether a text is the numeral of a number that a machine word holds:
/// decimal digits, at least one, after at most one plus sign.
pub open spec fn is_index_text(text: Seq<char>) -> bool {
    numeral(text, usize::MAX as nat) is Some
}

/// Whether a file name is that of a level: the word `level` and the
/// numeral of the level.
pub open spec fn is_level_name(file_name: Seq<char>) -> bool {
    starts_with(file_name, "level"@) && is_index_text(file_name.skip(5))
}

/// By which comparison the artifact with the given file name and extension
/// is compared. The first of these that applies decides: an assembly, where
/// assemblies are decompiled; a structured document; a container file, by
/// its extension or its name; an archive of container files.
pub open spec fn artifact_kind(cx: Context, file_name: Seq<char>, extension: Option<Seq<char>>)
    -> ArtifactKind {
    if extension == Some("dll"@) && cx.cs_decompile_assembly {
        ArtifactKind::Assembly
    } else if extension == Some("json"@) {
        ArtifactKind::Structured
    } else if extension == Some("assets"@) || file_name == "globalgamemanagers"@ || file_name
        == "unity_default_resources"@ || is_level_name(file_name) {
        ArtifactKind::Container
    } else if extension == Some("bundle"@) {
        ArtifactKind::Bundle
    } else {
        ArtifactKind::Other
    }
}

/// Decides by which comparison the artifact with the given file name and
/// extension is compared.
pub fn classify(cx: &Context, file_name: &str, extension: Option<&str>) -> (kind: ArtifactKind)
    ensures
        kind == artifact_kind(
            *cx,
            file_name@,
            match extension {
                Some(e) => Some(e@),
                None => None,
            },
        ),
{
    let is = |wanted: &str| -> (same: bool)
        ensures
            same == (extension matches Some(e) && e@ == wanted@),
        {
            match extension {
                Some(e) => str_equal(e, wanted),
                None => false,
            }
        };
    if is("dll") && cx.cs_decompile_assembly {
        return ArtifactKind::Assembly;
    }
    if is("json") {
        return ArtifactKind::Structured;
    }
    let chars = chars_of(file_name);
    let word = chars_of("level");
    proof {
        reveal_strlit("level");
    }
    let level = holds_at(&chars, 0, &word) && read_numeral(
        &chars,
        5,
        chars.len(),
        usize::MAX,
    ).is_some();
    proof {
        assert(chars@.subrange(5, chars.len() as int) =~= chars@.skip(5));
    }
    if is("assets") || str_equal(file_name, "globalgamemanagers") || str_equal(
        file_name,
        "unity_default_resources",
    ) || level {
        return ArtifactKind::Container;
    }
    if is("bundle") {
        return ArtifactKind::Bundle;
    }
    ArtifactKind::Other
}

/// What was loaded of the two versions of a changed artifact, by the kind
/// of its comparison.
pub enum Artifact<'a> {
    /// The decompiled sources of an assembly.
    Assembly(OldNew<&'a Vec<SourceFile>>),
    /// The bytes of a structured document.
    Structured(OldNew<&'a [u8]>),
    /// What was read of a container file.
    Container(OldNew<&'a ContainerFile>),
    /// The entries of an archive of container files.
    Bundle(OldNew<&'a Vec<BundleEntry>>),
    /// The bytes of anything else.
    Other(OldNew<&'a [u8]>),
}

/// Why an artifact could not be compared.
#[derive(Debug)]
pub enum DiffError {
    /// One version of a structured document is no such document.
    InvalidJson(JsonError),
}

/// A report without parts, to be written as a diff.
pub open spec fn diff_node(content: Seq<char>) -> ReportView {
    ReportView { content, extension: Some("diff"@), children: Seq::empty() }
}

/// A report without parts and without a format.
pub open spec fn plain_node(content: Seq<char>) -> ReportView {
    ReportView { content, extension: None, children: Seq::empty() }
}

/// The report on two lists of bytes that are no artifact of a known kind:
/// compared as texts if both are texts, and else only said to differ.
pub open spec fn other_report(cx: Context, old: Seq<u8>, new: Seq<u8>) -> ReportView {
    if valid_utf8(old) && valid_utf8(new) {
        diff_node(text_report(decode_utf8(old), decode_utf8(new), cx.text_diff_context_size))
    } else {
        plain_node("binary file differs"@)
    }
}

/// What comparing the two versions of a changed artifact comes to: the
/// report of the comparison of its kind. Only a structured document can
/// fail to be compared: where a version cannot be read, what is said of the
/// first such version is the outcome.
pub open spec fn diff_outcome(cx: Context, artifact: Artifact) -> Result<ReportView, Seq<char>> {
    match artifact {
        Artifact::Assembly(sources) => Ok(
            assembly_report(cx, sources_view(sources.old@), sources_view(sources.new@)),
        ),
        Artifact::Structured(data) => match json_parse(data.old@) {
            Ok(a) => match json_parse(data.new@) {
                Ok(b) => Ok(diff_node(json_report(cx, a, b))),
                Err(said) => Err(said),
            },
            Err(said) => Err(said),
        },
        Artifact::Container(files) => Ok(
            diff_node(serialized_report(cx, files.old@, files.new@)),
        ),
        Artifact::Bundle(entries) => Ok(
            diff_node(bundle_report(cx, entries_view(entries.old@), entries_view(entries.new@))),
        ),
        Artifact::Other(data) => Ok(other_report(cx, data.old@, data.new@)),
    }
}

impl DiffError {
    /// What went wrong, in words.
    pub open spec fn message(&self) -> Seq<char> {
        match self {
            DiffError::InvalidJson(e) => "invalid structured document: "@ + e.message@,
        }
    }

    /// What went wrong, in words.
    pub fn describe(&self) -> (text: String)
        ensures
            text@ == self.message(),
    {
        match self {
            DiffError::InvalidJson(e) => {
                let mut text = String::from_str("invalid structured document: ");
                text.append(e.message.as_str());
                text
            },
        }
    }
}

/// Compares the two versions of a changed artifact by the comparison of its
/// kind.
pub fn diff(cx: &Context, artifact: Artifact) -> (result: Result<DiffResult, DiffError>)
    ensures
        match diff_outcome(*cx, artifact) {
            Ok(report) => result matches Ok(node) && node@ == report,
            Err(said) => result matches Err(DiffError::InvalidJson(e)) && e.message@ == said,
        },
{
    match artifact {
        Artifact::Assembly(sources) => Ok(diff_assembly(cx, sources)),
        Artifact::Structured(data) => {
            let old = match read_document(data.old) {
                Ok(value) => value,
                Err(e) => {
                    return Err(DiffError::InvalidJson(e));
                },
            };
            let new = match read_document(data.new) {
                Ok(value) => value,
                Err(e) => {
                    return Err(DiffError::InvalidJson(e));
                },
            };
            Ok(DiffResult::diff_ext(diff_json(cx, OldNew::new(&old, &new))))
        },
        Artifact::Container(files) => Ok(DiffResult::diff_ext(diff_serializedfile(cx, files))),
        Artifact::Bundle(entries) => Ok(DiffResult::diff_ext(diff_bundlefile(cx, entries))),
        Artifact::Other(data) => match try_diff_text(cx, data) {
            Some(content) => Ok(DiffResult::diff_ext(content)),
            None => Ok(DiffResult::from(String::from_str("binary file differs"))),
        },
    }
}

/// Compares the two versions of a changed artifact. Where they cannot be
/// compared, the report says why in place of what differs; so one artifact
/// that fails does not stand in the way of the others.
pub fn diff_or_note(cx: &Context, artifact: Artifact) -> (node: DiffResult)
    ensures
        node@ == match diff_outcome(*cx, artifact) {
            Ok(report) => report,
            Err(said) => plain_node("failed to diff: invalid structured document: "@ + said),
        },
{
    match diff(cx, artifact) {
        Ok(done) => done,
        Err(e) => {
            let mut text = String::from_str("failed to diff: ");
            text.append(e.describe().as_str());
            let node = DiffResult::from(text);
            proof {
                reveal_strlit("failed to diff: ");
                reveal_strlit("invalid structured document: ");
                reveal_strlit("failed to diff: invalid structured document: ");
                assert(node@.content =~= "failed to diff: invalid structured document: "@
                    + e->InvalidJson_0.message@);
            }
            node
        },
    }
}

} // verus!
