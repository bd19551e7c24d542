//! The document of a session: a text of headings, labels and notes.
//!
//! ```text
//! # Session
//!
//! ## Marks
//!
//! ### 2002-05-08T12:00:00+00:00
//!
//! ### 2002-05-08T13:00:00+00:00
//!
//! - end
//! ```
//!
//! A heading is a line that begins with `#`, and its level is the number of
//! `#` it begins with. The section of a heading runs up to the next heading of
//! the same level or of a lower one. The marks are read from the section of
//! `## Marks`: each line that begins with `### ` opens the block of a mark.

use crate::mark::{decode_mark, is_mark_heading, DecodeError, Mark, MarkView};
use crate::session::{mark_views, Session, SessionView};
use crate::text::{
    append_chars, chars_of, copy_range, has_prefix, join, join_lines, line_views, lines,
    same_text, split_lines, starts_with, string_of, trim, trim_chars,
};
use vstd::prelude::*;

verus! {

/// What a document begins with: a heading of the first level.
pub open spec fn title_prefix() -> Seq<char> {
    "# "@
}

/// The heading of the section that holds the marks.
pub open spec fn marks_heading() -> Seq<char> {
    "## Marks"@
}

/// What stands before the marks in a document that is written.
pub open spec fn header_text() -> Seq<char> {
    "# Session\n\n## Marks\n\n"@
}

/// How many `#` the text begins with.
pub open spec fn hashes(s: Seq<char>) -> nat
    decreases s.len(),
{
    if s.len() > 0 && s[0] == '#' {
        1 + hashes(s.drop_first())
    } else {
        0
    }
}

/// The level of a heading line: the number of `#` that the line, trimmed, begins with.
pub open spec fn heading_level(line: Seq<char>) -> nat {
    hashes(trim(line))
}

/// The line is a heading of the level `level` or of a lower one, and so ends a
/// section of that level.
pub open spec fn closes(line: Seq<char>, level: nat) -> bool {
    line.len() > 0 && line[0] == '#' && heading_level(line) <= level
}

/// The line is the heading `heading`, white space at its ends aside.
pub open spec fn opens(line: Seq<char>, heading: Seq<char>) -> bool {
    trim(line) == trim(heading)
}

/// Whether the section of `heading` holds the line `line`, given whether it held the line before.
pub open spec fn within_after(line: Seq<char>, heading: Seq<char>, within: bool) -> bool {
    if opens(line, heading) {
        true
    } else if closes(line, heading_level(heading)) {
        false
    } else {
        within
    }
}

/// The lines of `ls` that belong to the section of `heading`, the heading line
/// included; `within` says whether the section is open where `ls` begins.
pub open spec fn section_lines(ls: Seq<Seq<char>>, heading: Seq<char>, within: bool) -> Seq<
    Seq<char>,
>
    decreases ls.len(),
{
    if ls.len() == 0 {
        Seq::empty()
    } else {
        let held = within_after(ls[0], heading, within);
        let rest = section_lines(ls.drop_first(), heading, held);
        if held {
            seq![ls[0]] + rest
        } else {
            rest
        }
    }
}

/// The section of `heading` in the text `contents`, trimmed.
pub open spec fn section_text(heading: Seq<char>, contents: Seq<char>) -> Seq<char> {
    trim(join(section_lines(lines(contents), heading, false)))
}

/// How many lines `ls` begins with that open no mark.
pub open spec fn block_len(ls: Seq<Seq<char>>) -> nat
    decreases ls.len(),
{
    if ls.len() > 0 && !is_mark_heading(ls[0]) {
        1 + block_len(ls.drop_first())
    } else {
        0
    }
}

/// The marks that the lines `ls` write. Lines before the first mark heading
/// are passed over; each mark heading opens a block that runs up to the next
/// one. The first block that is no mark decides the error.
pub open spec fn decode_marks(ls: Seq<Seq<char>>) -> Result<Seq<MarkView>, DecodeError>
    decreases ls.len(),
    via decode_marks_decreases
{
    if ls.len() == 0 {
        Ok(Seq::empty())
    } else if !is_mark_heading(ls[0]) {
        decode_marks(ls.drop_first())
    } else {
        let n = 1 + block_len(ls.drop_first()) as int;
        match decode_mark(ls.take(n)) {
            Err(e) => Err(e),
            Ok(mark) => match decode_marks(ls.skip(n)) {
                Err(e) => Err(e),
                Ok(marks) => Ok(seq![mark] + marks),
            },
        }
    }
}

#[via_fn]
proof fn decode_marks_decreases(ls: Seq<Seq<char>>) {
    if ls.len() > 0 {
        lemma_block_len(ls.drop_first());
    }
}

/// The block at the head of `ls` ends within `ls`, holds no mark heading, and
/// a mark heading follows it unless `ls` ends.
pub proof fn lemma_block_len(ls: Seq<Seq<char>>)
    ensures
        block_len(ls) <= ls.len(),
        forall|i: int| 0 <= i < block_len(ls) ==> !is_mark_heading(#[trigger] ls[i]),
        block_len(ls) < ls.len() ==> is_mark_heading(ls[block_len(ls) as int]),
    decreases ls.len(),
{
    if ls.len() > 0 && !is_mark_heading(ls[0]) {
        let rest = ls.drop_first();
        lemma_block_len(rest);
        assert forall|i: int| 0 <= i < block_len(ls) implies !is_mark_heading(
            #[trigger] ls[i],
        ) by {
            if i > 0 {
                assert(ls[i] == rest[i - 1]);
            }
        }
    }
}

/// `block_len(ls)` is `n` when no mark heading stands before `n` and one
/// stands there, or `ls` ends.
pub proof fn lemma_block_len_is(ls: Seq<Seq<char>>, n: int)
    requires
        0 <= n <= ls.len(),
        forall|i: int| 0 <= i < n ==> !is_mark_heading(#[trigger] ls[i]),
        n < ls.len() ==> is_mark_heading(ls[n]),
    ensures
        block_len(ls) == n,
    decreases n,
{
    if n > 0 {
        let rest = ls.drop_first();
        assert forall|i: int| 0 <= i < n - 1 implies !is_mark_heading(#[trigger] rest[i]) by {
            assert(rest[i] == ls[i + 1]);
        }
        lemma_block_len_is(rest, n - 1);
    }
}

/// `hashes(s)` is `n` when the first `n` characters are `#` and the next is not.
pub proof fn lemma_hashes_is(s: Seq<char>, n: int)
    requires
        0 <= n <= s.len(),
        forall|i: int| 0 <= i < n ==> s[i] == '#',
        n < s.len() ==> s[n] != '#',
    ensures
        hashes(s) == n,
    decreases n,
{
    if n > 0 {
        let rest = s.drop_first();
        assert forall|i: int| 0 <= i < n - 1 implies rest[i] == '#' by {
            assert(rest[i] == s[i + 1]);
        }
        lemma_hashes_is(rest, n - 1);
    }
}

/// The marks that the document `contents` writes: those of its section
/// `## Marks`. A document without a mark is refused.
pub open spec fn decode_document(contents: Seq<char>) -> Result<Seq<MarkView>, DecodeError> {
    match decode_marks(section_lines(lines(contents), marks_heading(), false)) {
        Err(e) => Err(e),
        Ok(marks) => if marks.len() == 0 {
            Err(DecodeError::NoMarks)
        } else {
            Ok(marks)
        },
    }
}

/// One of the lines is the heading `## Marks`.
pub open spec fn has_marks_heading(ls: Seq<Seq<char>>) -> bool {
    exists|i: int| 0 <= i < ls.len() && opens(#[trigger] ls[i], marks_heading())
}

/// The text of a document, trimmed, if it passes for a document: it begins
/// with a heading of the first level and holds the line `## Marks`.
pub open spec fn document_of(text: Seq<char>) -> Result<Seq<char>, DecodeError> {
    let document = trim(text);
    if !starts_with(document, title_prefix()) {
        Err(DecodeError::Header)
    } else if !has_marks_heading(lines(document)) {
        Err(DecodeError::MarksSection)
    } else {
        Ok(document)
    }
}

/// The blocks of the marks, each followed by an empty line.
pub open spec fn marks_text(marks: Seq<MarkView>) -> Seq<char>
    decreases marks.len(),
{
    if marks.len() == 0 {
        Seq::empty()
    } else {
        marks_text(marks.drop_last()) + marks.last().text() + seq!['\n', '\n']
    }
}

/// The text that writes the marks as a document, before it is trimmed.
pub open spec fn document_text(marks: Seq<MarkView>) -> Seq<char> {
    header_text() + marks_text(marks)
}

/// What a document file is: the model that contracts speak of.
pub struct FileView {
    pub path: Seq<char>,
    pub contents: Seq<char>,
}

/// The document with the text `text`, trimmed, kept at `path`, if the text passes for a document.
pub open spec fn file_of(path: Seq<char>, text: Seq<char>) -> Result<FileView, DecodeError> {
    match document_of(text) {
        Ok(contents) => Ok(FileView { path, contents }),
        Err(e) => Err(e),
    }
}

/// The document that writes the session, kept at the path of the session.
pub open spec fn encode(session: SessionView) -> Result<FileView, DecodeError> {
    file_of(session.path, document_text(session.marks))
}

/// The session that the document writes, with the path of the document.
pub open spec fn decode(file: FileView) -> Result<SessionView, DecodeError> {
    match decode_document(file.contents) {
        Ok(marks) => Ok(SessionView { path: file.path, marks }),
        Err(e) => Err(e),
    }
}

/// The session that the text `raw` writes, with the path `path`.
pub open spec fn decode_text(path: Seq<char>, raw: Seq<char>) -> Result<SessionView, DecodeError> {
    match file_of(path, raw) {
        Ok(file) => decode(file),
        Err(e) => Err(e),
    }
}

/// The text of the document that writes the session.
pub open spec fn encode_text(session: SessionView) -> Result<Seq<char>, DecodeError> {
    match encode(session) {
        Ok(file) => Ok(file.contents),
        Err(e) => Err(e),
    }
}

/// What reading gave is what the model says it gives, and a session read is well formed.
pub open spec fn session_agrees(
    r: Result<Session, DecodeError>,
    model: Result<SessionView, DecodeError>,
) -> bool {
    match r {
        Ok(session) => model == Ok::<SessionView, DecodeError>(session@) && session.wf(),
        Err(e) => model == Err::<SessionView, DecodeError>(e),
    }
}

/// What building gave is what the model says it gives.
pub open spec fn file_agrees(
    r: Result<SessionFile, DecodeError>,
    model: Result<FileView, DecodeError>,
) -> bool {
    match r {
        Ok(file) => model == Ok::<FileView, DecodeError>(file@),
        Err(e) => model == Err::<FileView, DecodeError>(e),
    }
}

/// A document and the place where it is kept.
#[derive(Clone, Debug, PartialEq, Eq)]
pub struct SessionFile {
    /// Where the document is kept.
    pub path: String,
    /// The text of the document, trimmed.
    pub contents: String,
}

impl View for SessionFile {
    type V = FileView;

    open spec fn view(&self) -> FileView {
        FileView { path: self.path@, contents: self.contents@ }
    }
}

/// How many `#` the text begins with.
pub fn count_hashes(v: &Vec<char>) -> (r: usize)
    ensures
        r == hashes(v@),
{
    let mut i: usize = 0;
    while i < v.len() && v[i] == '#'
        invariant
            i <= v.len(),
            forall|k: int| 0 <= k < i ==> v@[k] == '#',
        decreases v.len() - i,
    {
        i += 1;
    }
    proof {
        lemma_hashes_is(v@, i as int);
    }
    i
}

/// The lines of `ls` that belong to the section of `heading`.
pub fn section_of(ls: &Vec<Vec<char>>, heading: &Vec<char>) -> (r: Vec<Vec<char>>)
    ensures
        line_views(r@) == section_lines(line_views(ls@), heading@, false),
{
    let title = trim_chars(heading);
    let level: usize = count_hashes(&title);
    let mut r: Vec<Vec<char>> = Vec::new();
    let mut within: bool = false;
    let mut i: usize = 0;
    let ghost all = line_views(ls@);
    proof {
        assert(all.skip(0) =~= all);
        assert(line_views(r@) + section_lines(all, heading@, false) =~= section_lines(
            all,
            heading@,
            false,
        ));
    }
    while i < ls.len()
        invariant
            i <= ls.len(),
            all == line_views(ls@),
            title@ == trim(heading@),
            level == heading_level(heading@),
            line_views(r@) + section_lines(all.skip(i as int), heading@, within)
                == section_lines(all, heading@, false),
        decreases ls.len() - i,
    {
        let line = &ls[i];
        let trimmed = trim_chars(line);
        proof {
            let here = all.skip(i as int);
            assert(here[0] == line@);
            assert(here.drop_first() =~= all.skip(i + 1));
        }
        if same_text(&trimmed, &title) {
            within = true;
        } else if line.len() > 0 && line[0] == '#' && count_hashes(&trimmed) <= level {
            within = false;
        }
        if within {
            let copy = copy_range(line, 0, line.len());
            proof {
                assert(copy@ =~= line@);
                assert(line_views(r@.push(copy)) =~= line_views(r@) + seq![line@]);
            }
            r.push(copy);
        }
        i += 1;
    }
    proof {
        assert(line_views(r@) + Seq::<Seq<char>>::empty() =~= line_views(r@));
    }
    r
}

/// Reads the marks that the lines `ls` write.
pub fn marks_of(ls: &Vec<Vec<char>>) -> (r: Result<Vec<Mark>, DecodeError>)
    ensures
        match r {
            Ok(marks) => decode_marks(line_views(ls@)) == Ok::<Seq<MarkView>, DecodeError>(
                mark_views(marks@),
            ) && forall|k: int| 0 <= k < marks.len() ==> (#[trigger] marks@[k]).wf(),
            Err(e) => decode_marks(line_views(ls@)) == Err::<Seq<MarkView>, DecodeError>(e),
        },
{
    let ghost all = line_views(ls@);
    let prefix = chars_of("### ");
    let mut marks: Vec<Mark> = Vec::new();
    let mut i: usize = 0;
    proof {
        assert(all.skip(0) =~= all);
        assert(mark_views(marks@) =~= Seq::<MarkView>::empty());
        match decode_marks(all) {
            Ok(ms) => {
                assert(mark_views(marks@) + ms =~= ms);
            },
            Err(_) => {},
        }
    }
    while i < ls.len()
        invariant
            i <= ls.len(),
            all == line_views(ls@),
            prefix@ == crate::mark::mark_prefix(),
            forall|k: int| 0 <= k < marks.len() ==> (#[trigger] marks@[k]).wf(),
            decode_marks(all) == match decode_marks(all.skip(i as int)) {
                Ok(ms) => Ok::<Seq<MarkView>, DecodeError>(mark_views(marks@) + ms),
                Err(e) => Err(e),
            },
        decreases ls.len() - i,
    {
        let ghost here = all.skip(i as int);
        proof {
            assert(here[0] == ls@[i as int]@);
            assert(here.drop_first() =~= all.skip(i + 1));
        }
        if !has_prefix(&ls[i], &prefix) {
            i += 1;
            continue ;
        }
        let mut j: usize = i + 1;
        while j < ls.len() && !has_prefix(&ls[j], &prefix)
            invariant
                i < j <= ls.len(),
                all == line_views(ls@),
                prefix@ == crate::mark::mark_prefix(),
                forall|k: int| i < k < j ==> !is_mark_heading(#[trigger] all[k]),
            decreases ls.len() - j,
        {
            j += 1;
        }
        proof {
            let after = here.drop_first();
            assert forall|k: int| 0 <= k < j - i - 1 implies !is_mark_heading(
                #[trigger] after[k],
            ) by {
                assert(after[k] == all[k + i + 1]);
            }
            if j < ls.len() {
                assert(after[j - i - 1] == all[j as int]);
            }
            lemma_block_len_is(after, j - i - 1);
            assert(here.take(j - i) =~= all.subrange(i as int, j as int));
            assert(here.skip(j - i) =~= all.skip(j as int));
        }
        match Mark::from_lines(ls, i, j) {
            Err(e) => {
                return Err(e);
            },
            Ok(mark) => {
                proof {
                    let before = mark_views(marks@);
                    assert(mark_views(marks@.push(mark)) =~= before + seq![mark@]);
                    match decode_marks(all.skip(j as int)) {
                        Ok(ms) => {
                            assert(before + (seq![mark@] + ms) =~= before + seq![mark@] + ms);
                        },
                        Err(_) => {},
                    }
                }
                marks.push(mark);
            },
        }
        i = j;
    }
    proof {
        assert(mark_views(marks@) + Seq::<MarkView>::empty() =~= mark_views(marks@));
    }
    Ok(marks)
}

impl SessionFile {
    /// The document with the text `contents`, trimmed, kept at `path`, if the
    /// text passes for a document.
    pub fn build(path: &str, contents: &str) -> (r: Result<SessionFile, DecodeError>)
        ensures
            file_agrees(r, file_of(path@, contents@)),
    {
        let document = trim_chars(&chars_of(contents));
        if !has_prefix(&document, &chars_of("# ")) {
            return Err(DecodeError::Header);
        }
        let ls = split_lines(&document);
        let heading = trim_chars(&chars_of("## Marks"));
        let mut i: usize = 0;
        while i < ls.len()
            invariant
                i <= ls.len(),
                heading@ == trim(marks_heading()),
                document@ == trim(contents@),
                starts_with(document@, title_prefix()),
                line_views(ls@) == lines(document@),
                forall|k: int|
                    0 <= k < i ==> !opens(#[trigger] line_views(ls@)[k], marks_heading()),
            decreases ls.len() - i,
        {
            if same_text(&trim_chars(&ls[i]), &heading) {
                proof {
                    assert(opens(line_views(ls@)[i as int], marks_heading()));
                }
                return Ok(
                    SessionFile { path: path.to_owned(), contents: string_of(&document) },
                );
            }
            i += 1;
        }
        Err(DecodeError::MarksSection)
    }

    /// The section of `heading` in `contents`: the heading line and what
    /// follows it up to the next heading of the same level or of a lower one,
    /// trimmed. `heading` is taken without the white space at its ends.
    pub fn get_heading_with_contents(heading: &str, contents: &str) -> (r: String)
        ensures
            r@ == section_text(heading@, contents@),
    {
        let ls = split_lines(&chars_of(contents));
        let section = section_of(&ls, &chars_of(heading));
        string_of(&trim_chars(&join_lines(&section)))
    }

    /// The level of a heading: the number of `#` that it begins with, once trimmed.
    pub fn get_heading_level(heading: &str) -> (r: usize)
        ensures
            r == heading_level(heading@),
    {
        count_hashes(&trim_chars(&chars_of(heading)))
    }
}

impl Session {
    /// Reads the session that the document `file` writes.
    pub fn from_file(file: &SessionFile) -> (r: Result<Session, DecodeError>)
        ensures
            session_agrees(r, decode(file@)),
    {
        let ls = split_lines(&chars_of(file.contents.as_str()));
        let section = section_of(&ls, &chars_of("## Marks"));
        match marks_of(&section) {
            Err(e) => Err(e),
            Ok(marks) => {
                if marks.len() == 0 {
                    Err(DecodeError::NoMarks)
                } else {
                    Ok(Session { path: file.path.clone(), marks })
                }
            },
        }
    }

    /// Reads the session that the text `raw` writes; its document is kept at `path`.
    pub fn from_text(path: &str, raw: &str) -> (r: Result<Session, DecodeError>)
        ensures
            session_agrees(r, decode_text(path@, raw@)),
    {
        match SessionFile::build(path, raw) {
            Ok(file) => Session::from_file(&file),
            Err(e) => Err(e),
        }
    }

    /// The text of the document that writes this session.
    pub fn to_text(&self) -> (r: Result<String, DecodeError>)
        requires
            self.wf(),
        ensures
            match encode_text(self@) {
                Ok(text) => r matches Ok(written) && written@ == text,
                Err(e) => r == Err::<String, DecodeError>(e),
            },
    {
        match self.to_file() {
            Ok(file) => Ok(file.contents),
            Err(e) => Err(e),
        }
    }

    /// Writes this session as a document, to be kept at the path of the session.
    pub fn to_file(&self) -> (r: Result<SessionFile, DecodeError>)
        requires
            self.wf(),
        ensures
            file_agrees(r, encode(self@)),
    {
        let mut text = chars_of("# Session\n\n## Marks\n\n");
        let ghost marks = self@.marks;
        let mut i: usize = 0;
        proof {
            assert(marks.take(0) =~= Seq::<MarkView>::empty());
            assert(text@ + marks_text(marks.take(0)) =~= text@);
        }
        while i < self.marks.len()
            invariant
                i <= self.marks.len(),
                marks == self@.marks,
                self.wf(),
                text@ == header_text() + marks_text(marks.take(i as int)),
            decreases self.marks.len() - i,
        {
            proof {
                let next = marks.take(i + 1);
                assert(next.drop_last() =~= marks.take(i as int));
                assert(next.last() == self.marks@[i as int]@);
                assert(marks[i as int].wf());
                assert(header_text() + marks_text(marks.take(i as int)) + next.last().text()
                    + seq!['\n', '\n'] =~= header_text() + marks_text(next));
            }
            append_chars(&mut text, &self.marks[i].to_chars());
            text.push('\n');
            text.push('\n');
            proof {
                let block = self.marks@[i as int]@.text();
                assert((header_text() + marks_text(marks.take(i as int)) + block).push(
                    '\n',
                ).push('\n') =~= header_text() + marks_text(marks.take(i as int)) + block
                    + seq!['\n', '\n']);
            }
            i += 1;
        }
        proof {
            assert(marks.take(marks.len() as int) =~= marks);
        }
        SessionFile::build(self.path.as_str(), string_of(&text).as_str())
    }
}

} // verus!
