use crate::text::{
    chars_of, holds_at, lines_of, lines_view, numeral, push_char, read_numeral, split_lines,
    starts_with,
};
use vstd::prelude::*;

verus! {

/// The day and the time of day that a manifest was made.
#[derive(Debug, Clone, Copy, PartialEq, Eq, PartialOrd, Ord)]
pub struct ManifestDate {
    pub year: i16,
    pub month: i8,
    pub day: i8,
    pub hour: i8,
    pub minute: i8,
    pub second: i8,
}

/// What a manifest says of one file, as mathematics sees it.
pub struct FileView {
    pub path: Seq<char>,
    pub size: usize,
    pub flags: u32,
    pub sha: Seq<char>,
}

/// What a manifest says of one file: its size, its flags and the hash of
/// its content.
#[derive(Debug)]
pub struct ManifestFile {
    pub size: usize,
    pub flags: u32,
    pub sha: String,
}

/// A manifest as mathematics sees it.
pub struct ManifestView {
    pub id: Seq<char>,
    pub date: ManifestDate,
    pub files: Seq<FileView>,
}

/// The index of a snapshot: its number, when it was made, and its files
/// under their paths, in the order of the listing.
#[derive(Debug)]
pub struct Manifest {
    pub id: String,
    pub date: ManifestDate,
    pub files: Vec<(String, ManifestFile)>,
}

/// The files that a list of paths and files stands for.
pub open spec fn files_view(files: Seq<(String, ManifestFile)>) -> Seq<FileView> {
    Seq::new(
        files.len(),
        |i: int|
            FileView {
                path: files[i].0@,
                size: files[i].1.size,
                flags: files[i].1.flags,
                sha: files[i].1.sha@,
            },
    )
}

impl View for Manifest {
    type V = ManifestView;

    open spec fn view(&self) -> ManifestView {
        ManifestView { id: self.id@, date: self.date, files: files_view(self.files@) }
    }
}

/// Why a text is no manifest.
#[derive(Debug, Clone, Copy, PartialEq, Eq, Structural)]
pub enum ManifestError {
    /// The third line does not name the manifest and its date.
    InvalidHeader,
    /// No line heads the listing of the files.
    MissingMarker,
    /// A line of the listing does not describe a file.
    InvalidLine,
    /// The date of the manifest is no date.
    InvalidDate,
}

/// The date that the date crate reads from a text of the form
/// month/day/year hour:minute:second, if the text is such a date.
pub uninterp spec fn manifest_date(text: Seq<char>) -> Option<ManifestDate>;

/// `jiff::civil::DateTime::strptime` with the format
/// `%m/%d/%Y %H:%M:%S`. Whether the text is read, and as which date,
/// depends on the text alone.
#[verifier::external_body]
fn read_date(text: &str) -> (date: Option<ManifestDate>)
    ensures
        date == manifest_date(text@),
{
    jiff::civil::DateTime::strptime("%m/%d/%Y %H:%M:%S", text).ok().map(
        |d| ManifestDate {
            year: d.year(),
            month: d.month(),
            day: d.day(),
            hour: d.hour(),
            minute: d.minute(),
            second: d.second(),
        },
    )
}

/// Whether a character is white space.
pub open spec fn is_space(c: char) -> bool {
    ('\u{9}' <= c <= '\u{d}') || c == ' ' || c == '\u{85}' || c == '\u{a0}' || c == '\u{1680}' || (
    '\u{2000}' <= c <= '\u{200a}') || c == '\u{2028}' || c == '\u{2029}' || c == '\u{202f}' || c
        == '\u{205f}' || c == '\u{3000}'
}

/// Whether a character is one of the blanks that set the columns of a
/// listing apart.
pub open spec fn is_blank(c: char) -> bool {
    c == ' ' || c == '\t' || c == '\n' || c == '\u{c}' || c == '\r'
}

/// The first position from `from` on that holds no white space, or the
/// length of the text.
pub open spec fn skip_space(text: Seq<char>, from: int) -> int
    decreases text.len() - from,
{
    if from < 0 || from >= text.len() {
        text.len() as int
    } else if is_space(text[from]) {
        skip_space(text, from + 1)
    } else {
        from
    }
}

/// The position behind the last character before `to` that is no white
/// space, or 0.
pub open spec fn back_space(text: Seq<char>, to: int) -> int
    decreases to,
{
    if to <= 0 || to > text.len() {
        0
    } else if is_space(text[to - 1]) {
        back_space(text, to - 1)
    } else {
        to
    }
}

/// A text without the white space at its start and its end.
pub open spec fn trimmed(text: Seq<char>) -> Seq<char> {
    let start = skip_space(text, 0);
    let end = back_space(text, text.len() as int);
    if start < end {
        text.subrange(start, end)
    } else {
        Seq::empty()
    }
}

/// The first position from `from` on at which `part` stands in `text`, or
/// -1 if it stands nowhere.
pub open spec fn find_text(text: Seq<char>, part: Seq<char>, from: int) -> int
    decreases text.len() - from,
{
    if from < 0 || from >= text.len() || from + part.len() > text.len() {
        -1
    } else if text.subrange(from, from + part.len()) == part {
        from
    } else {
        find_text(text, part, from + 1)
    }
}

/// The number of a manifest and the text of its date, as its header line
/// gives them: the line reads `Manifest ID / date`, a colon and a space, the
/// number, a slash between spaces, and the date.
pub open spec fn parse_header(line: Seq<char>) -> Option<(Seq<char>, Seq<char>)> {
    let colon = find_text(line, ": "@, 0);
    if colon < 0 {
        None
    } else if trimmed(line.subrange(0, colon)) != "Manifest ID / date"@ {
        None
    } else {
        let value = trimmed(line.subrange(colon + 2, line.len() as int));
        let slash = find_text(value, " / "@, 0);
        if slash < 0 {
            None
        } else {
            Some((value.subrange(0, slash), value.subrange(slash + 3, value.len() as int)))
        }
    }
}

/// Whether a line heads the listing of the files.
pub open spec fn is_marker(line: Seq<char>) -> bool {
    starts_with(line.skip(skip_space(line, 0)), "Size Chunks File SHA"@)
}

/// The position of the first line from `from` on that heads the listing,
/// or the number of lines.
pub open spec fn marker_position(lines: Seq<Seq<char>>, from: int) -> int
    decreases lines.len() - from,
{
    if from < 0 || from >= lines.len() {
        lines.len() as int
    } else if is_marker(lines[from]) {
        from
    } else {
        marker_position(lines, from + 1)
    }
}

/// The first position from `from` on that holds no blank, or the length of
/// the line.
pub open spec fn skip_blank(line: Seq<char>, from: int) -> int
    decreases line.len() - from,
{
    if from < 0 || from >= line.len() {
        line.len() as int
    } else if is_blank(line[from]) {
        skip_blank(line, from + 1)
    } else {
        from
    }
}

/// The first position from `from` on that holds a blank, or the length of
/// the line.
pub open spec fn token_end(line: Seq<char>, from: int) -> int
    decreases line.len() - from,
{
    if from < 0 || from >= line.len() {
        line.len() as int
    } else if is_blank(line[from]) {
        from
    } else {
        token_end(line, from + 1)
    }
}

/// What a line of the listing says of a file: four columns set apart by
/// blanks hold its size, the number of its chunks, the hash of its content
/// and its flags; behind one more blank, the rest of the line is its path.
pub open spec fn parse_file_line(line: Seq<char>) -> Option<FileView> {
    let size_from = skip_blank(line, 0);
    let size_to = token_end(line, size_from);
    let chunks_from = skip_blank(line, size_to);
    let chunks_to = token_end(line, chunks_from);
    let sha_from = skip_blank(line, chunks_to);
    let sha_to = token_end(line, sha_from);
    let flags_from = skip_blank(line, sha_to);
    let flags_to = token_end(line, flags_from);
    if flags_to >= line.len() {
        None
    } else {
        match (
            numeral(line.subrange(size_from, size_to), usize::MAX as nat),
            numeral(line.subrange(flags_from, flags_to), u32::MAX as nat),
        ) {
            (Some(size), Some(flags)) => Some(
                FileView {
                    path: line.subrange(flags_to + 1, line.len() as int),
                    size: size as usize,
                    flags: flags as u32,
                    sha: line.subrange(sha_from, sha_to),
                },
            ),
            _ => None,
        }
    }
}

/// What the lines from `from` up to `upto` say of files, if each of them
/// describes a file.
pub open spec fn parse_files(lines: Seq<Seq<char>>, from: int, upto: int) -> Option<Seq<FileView>>
    decreases upto - from,
{
    if upto <= from || from < 0 || upto > lines.len() {
        Some(Seq::empty())
    } else {
        match (parse_files(lines, from, upto - 1), parse_file_line(lines[upto - 1])) {
            (Some(head), Some(file)) => Some(head.push(file)),
            _ => None,
        }
    }
}

/// The manifest that a text is, or why it is none. The third line is the
/// header. The line that heads the listing follows somewhere, and each line
/// behind it describes a file.
pub open spec fn parse_manifest(text: Seq<char>) -> Result<ManifestView, ManifestError> {
    let lines = lines_of(text);
    if lines.len() < 3 {
        Err(ManifestError::InvalidHeader)
    } else {
        match parse_header(lines[2]) {
            None => Err(ManifestError::InvalidHeader),
            Some(header) => {
                let marker = marker_position(lines, 3);
                if marker >= lines.len() {
                    Err(ManifestError::MissingMarker)
                } else {
                    match parse_files(lines, marker + 1, lines.len() as int) {
                        None => Err(ManifestError::InvalidLine),
                        Some(files) => match manifest_date(header.1) {
                            None => Err(ManifestError::InvalidDate),
                            Some(date) => Ok(ManifestView { id: header.0, date, files }),
                        },
                    }
                }
            },
        }
    }
}

fn is_space_char(c: char) -> (space: bool)
    ensures
        space == is_space(c),
{
    ('\u{9}' <= c && c <= '\u{d}') || c == ' ' || c == '\u{85}' || c == '\u{a0}' || c
        == '\u{1680}' || ('\u{2000}' <= c && c <= '\u{200a}') || c == '\u{2028}' || c
        == '\u{2029}' || c == '\u{202f}' || c == '\u{205f}' || c == '\u{3000}'
}

fn is_blank_char(c: char) -> (blank: bool)
    ensures
        blank == is_blank(c),
{
    c == ' ' || c == '\t' || c == '\n' || c == '\u{c}' || c == '\r'
}

/// The characters from `from` up to `to`.
fn part_of(chars: &Vec<char>, from: usize, to: usize) -> (part: Vec<char>)
    requires
        from <= to <= chars.len(),
    ensures
        part@ == chars@.subrange(from as int, to as int),
{
    let mut part: Vec<char> = Vec::new();
    let mut i: usize = from;
    while i < to
        invariant
            from <= i <= to <= chars.len(),
            part@ == chars@.subrange(from as int, i as int),
        decreases to - i,
    {
        part.push(chars[i]);
        proof {
            assert(chars@.subrange(from as int, i as int + 1) =~= chars@.subrange(
                from as int,
                i as int,
            ).push(chars[i as int]));
        }
        i += 1;
    }
    part
}

/// The characters from `from` up to `to` as a text.
fn text_of(chars: &Vec<char>, from: usize, to: usize) -> (text: String)
    requires
        from <= to <= chars.len(),
    ensures
        text@ == chars@.subrange(from as int, to as int),
{
    let mut text = String::new();
    let mut i: usize = from;
    proof {
        assert(chars@.subrange(from as int, from as int) =~= Seq::<char>::empty());
    }
    while i < to
        invariant
            from <= i <= to <= chars.len(),
            text@ == chars@.subrange(from as int, i as int),
        decreases to - i,
    {
        push_char(&mut text, chars[i]);
        proof {
            assert(chars@.subrange(from as int, i as int + 1) =~= chars@.subrange(
                from as int,
                i as int,
            ).push(chars[i as int]));
        }
        i += 1;
    }
    text
}

/// The characters without the white space at their start and their end.
fn trim_chars(chars: &Vec<char>) -> (kept: Vec<char>)
    ensures
        kept@ == trimmed(chars@),
{
    let mut start: usize = 0;
    while start < chars.len() && is_space_char(chars[start])
        invariant
            start <= chars.len(),
            skip_space(chars@, 0) == skip_space(chars@, start as int),
        decreases chars.len() - start,
    {
        start += 1;
    }
    let mut end: usize = chars.len();
    while end > 0 && is_space_char(chars[end - 1])
        invariant
            end <= chars.len(),
            back_space(chars@, chars.len() as int) == back_space(chars@, end as int),
        decreases end,
    {
        end -= 1;
    }
    if start < end {
        part_of(chars, start, end)
    } else {
        Vec::new()
    }
}

/// The first position from `from` on at which `part` stands in `text`.
fn find_in(text: &Vec<char>, part: &Vec<char>, from: usize) -> (found: Option<usize>)
    ensures
        match found {
            Some(i) => i == find_text(text@, part@, from as int) && i + part.len() <= text.len(),
            None => find_text(text@, part@, from as int) < 0,
        },
{
    let mut i: usize = from;
    while i < text.len() && part.len() <= text.len() - i
        invariant
            from <= i,
            find_text(text@, part@, from as int) == find_text(text@, part@, i as int),
        decreases text.len() - i,
    {
        if holds_at(text, i, part) {
            return Some(i);
        }
        i += 1;
    }
    None
}

/// Whether two lists hold the same characters.
fn same_chars(a: &Vec<char>, b: &Vec<char>) -> (same: bool)
    ensures
        same == (a@ == b@),
{
    proof {
        assert(a@.subrange(0, a.len() as int) =~= a@);
    }
    a.len() == b.len() && holds_at(a, 0, b)
}

/// The number of a manifest and the text of its date, as its header line
/// gives them.
fn read_header(line: &Vec<char>) -> (header: Option<(String, String)>)
    ensures
        match header {
            Some(h) => parse_header(line@) == Some((h.0@, h.1@)),
            None => parse_header(line@) is None,
        },
{
    let colon = match find_in(line, &chars_of(": "), 0) {
        Some(i) => i,
        None => {
            return None;
        },
    };
    let key = trim_chars(&part_of(line, 0, colon));
    if !same_chars(&key, &chars_of("Manifest ID / date")) {
        return None;
    }
    proof {
        reveal_strlit(": ");
    }
    let value = trim_chars(&part_of(line, colon + 2, line.len()));
    let slash = match find_in(&value, &chars_of(" / "), 0) {
        Some(i) => i,
        None => {
            return None;
        },
    };
    proof {
        reveal_strlit(" / ");
    }
    Some((text_of(&value, 0, slash), text_of(&value, slash + 3, value.len())))
}

/// Whether a line heads the listing of the files.
fn heads_listing(line: &Vec<char>) -> (heads: bool)
    ensures
        heads == is_marker(line@),
{
    let mut start: usize = 0;
    while start < line.len() && is_space_char(line[start])
        invariant
            start <= line.len(),
            skip_space(line@, 0) == skip_space(line@, start as int),
        decreases line.len() - start,
    {
        start += 1;
    }
    let word = chars_of("Size Chunks File SHA");
    proof {
        let rest = line@.skip(start as int);
        if start + word.len() <= line.len() {
            assert(rest.subrange(0, word.len() as int) =~= line@.subrange(
                start as int,
                start + word.len(),
            ));
        }
    }
    holds_at(line, start, &word)
}

/// The first position from `from` on that holds no blank.
fn after_blanks(line: &Vec<char>, from: usize) -> (pos: usize)
    requires
        from <= line.len(),
    ensures
        pos == skip_blank(line@, from as int),
        from <= pos <= line.len(),
{
    let mut pos: usize = from;
    while pos < line.len() && is_blank_char(line[pos])
        invariant
            from <= pos <= line.len(),
            skip_blank(line@, from as int) == skip_blank(line@, pos as int),
        decreases line.len() - pos,
    {
        pos += 1;
    }
    pos
}

/// The first position from `from` on that holds a blank.
fn column_end(line: &Vec<char>, from: usize) -> (pos: usize)
    requires
        from <= line.len(),
    ensures
        pos == token_end(line@, from as int),
        from <= pos <= line.len(),
{
    let mut pos: usize = from;
    while pos < line.len() && !is_blank_char(line[pos])
        invariant
            from <= pos <= line.len(),
            token_end(line@, from as int) == token_end(line@, pos as int),
        decreases line.len() - pos,
    {
        pos += 1;
    }
    pos
}

/// What a line of the listing says of a file.
fn read_file_line(line: &Vec<char>) -> (file: Option<(String, ManifestFile)>)
    ensures
        match file {
            Some(f) => parse_file_line(line@) == Some(
                FileView { path: f.0@, size: f.1.size, flags: f.1.flags, sha: f.1.sha@ },
            ),
            None => parse_file_line(line@) is None,
        },
{
    let size_from = after_blanks(line, 0);
    let size_to = column_end(line, size_from);
    let chunks_from = after_blanks(line, size_to);
    let chunks_to = column_end(line, chunks_from);
    let sha_from = after_blanks(line, chunks_to);
    let sha_to = column_end(line, sha_from);
    let flags_from = after_blanks(line, sha_to);
    let flags_to = column_end(line, flags_from);
    if flags_to >= line.len() {
        return None;
    }
    let size = match read_numeral(line, size_from, size_to, usize::MAX) {
        Some(n) => n,
        None => {
            return None;
        },
    };
    let flags = match read_numeral(line, flags_from, flags_to, 0xffff_ffff) {
        Some(n) => n,
        None => {
            return None;
        },
    };
    Some(
        (
            text_of(line, flags_to + 1, line.len()),
            ManifestFile { size, flags: flags as u32, sha: text_of(line, sha_from, sha_to) },
        ),
    )
}

impl Manifest {
    /// Reads a manifest from its text.
    #[verifier::loop_isolation(false)]
    pub fn parse(manifest: &str) -> (parsed: Result<Manifest, ManifestError>)
        ensures
            match parsed {
                Ok(m) => parse_manifest(manifest@) == Ok::<ManifestView, ManifestError>(m@),
                Err(e) => parse_manifest(manifest@) == Err::<ManifestView, ManifestError>(e),
            },
    {
        let lines = split_lines(manifest);
        let ghost all = lines_view(lines@);
        if lines.len() < 3 {
            return Err(ManifestError::InvalidHeader);
        }
        proof {
            assert(all[2] == lines[2]@);
        }
        let header = match read_header(&lines[2]) {
            Some(h) => h,
            None => {
                return Err(ManifestError::InvalidHeader);
            },
        };
        let mut marker: usize = 3;
        while marker < lines.len() && !heads_listing(&lines[marker])
            invariant
                3 <= marker <= lines.len(),
                all == lines_view(lines@),
                marker_position(all, 3) == marker_position(all, marker as int),
            decreases lines.len() - marker,
        {
            proof {
                assert(all[marker as int] == lines[marker as int]@);
            }
            marker += 1;
        }
        proof {
            if marker < lines.len() {
                assert(all[marker as int] == lines[marker as int]@);
            }
        }
        if marker >= lines.len() {
            return Err(ManifestError::MissingMarker);
        }
        let mut files: Vec<(String, ManifestFile)> = Vec::new();
        let mut i: usize = marker + 1;
        proof {
            assert(files_view(files@) =~= Seq::<FileView>::empty());
        }
        while i < lines.len()
            invariant
                marker < i <= lines.len(),
                all == lines_view(lines@),
                parse_files(all, marker + 1, i as int) == Some(files_view(files@)),
            decreases lines.len() - i,
        {
            proof {
                assert(all[i as int] == lines[i as int]@);
            }
            match read_file_line(&lines[i]) {
                Some(file) => {
                    proof {
                        assert(files_view(files@.push(file)) =~= files_view(files@).push(
                            FileView {
                                path: file.0@,
                                size: file.1.size,
                                flags: file.1.flags,
                                sha: file.1.sha@,
                            },
                        ));
                    }
                    files.push(file);
                },
                None => {
                    proof {
                        assert(parse_files(all, marker + 1, i as int + 1) is None);
                        lemma_bad_line(all, marker + 1, i as int + 1, lines.len() as int);
                    }
                    return Err(ManifestError::InvalidLine);
                },
            }
            i += 1;
        }
        match read_date(header.1.as_str()) {
            Some(date) => Ok(Manifest { id: header.0, date, files }),
            None => Err(ManifestError::InvalidDate),
        }
    }
}

/// Where the lines up to some line do not all describe files, neither do
/// the lines up to a later one.
proof fn lemma_bad_line(lines: Seq<Seq<char>>, from: int, bad: int, upto: int)
    requires
        0 <= from < bad <= upto <= lines.len(),
        parse_files(lines, from, bad) is None,
    ensures
        parse_files(lines, from, upto) is None,
    decreases upto - bad,
{
    if bad < upto {
        lemma_bad_line(lines, from, bad, upto - 1);
    }
}

} // verus!
