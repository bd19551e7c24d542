//! A mark: one instant of a session, with its attribute, its tags and its notes,
//! and the block of lines that writes it in a document.
//!
//! ```text
//! ### 2002-05-08T12:00:00+00:00
//!
//! - end
//! - tag `rust`
//!
//! Notes, as many lines as there are.
//! ```

use crate::date_time::DateTime;
use crate::label::{
    find_tag, insert_tag, lemma_insert_tag, lemma_lt_transitive, lemma_remove_tag, remove_tag,
    sorted, tag_line, tag_of_line, tag_views, text_less, text_lt, valid_tag, Attribute, Tag,
};
use crate::text::{
    append_chars, chars_of, copy_range, has_prefix, is_blank, is_blank_line, join, join_range,
    line_views, lines, split_lines, stacked, starts_with, string_of, trim, trim_chars,
};
use vstd::prelude::*;

verus! {

/// What the heading line of a mark begins with.
pub open spec fn mark_prefix() -> Seq<char> {
    "### "@
}

/// What a label line begins with.
pub open spec fn label_prefix() -> Seq<char> {
    "- "@
}

/// The line opens the block of a mark.
pub open spec fn is_mark_heading(line: Seq<char>) -> bool {
    starts_with(line, mark_prefix())
}

/// The line is taken for a label: trimmed, it begins with `- `.
pub open spec fn is_label(line: Seq<char>) -> bool {
    starts_with(trim(line), label_prefix())
}

/// How many blank lines `ls` begins with.
pub open spec fn blank_count(ls: Seq<Seq<char>>) -> nat
    decreases ls.len(),
{
    if ls.len() > 0 && is_blank(ls[0]) {
        1 + blank_count(ls.drop_first())
    } else {
        0
    }
}

/// Why a text is no document of a session.
#[derive(Clone, Copy, Debug, PartialEq, Eq, Structural)]
pub enum DecodeError {
    /// The document does not begin with a heading of the first level.
    Header,
    /// The document has no line `## Marks`.
    MarksSection,
    /// The heading of a mark holds no date that can be read.
    MarkDate,
    /// A label line is neither an attribute nor a well-formed tag.
    Label,
    /// A mark has two attribute lines.
    Attributes,
    /// The document holds no mark.
    NoMarks,
}

impl DecodeError {
    /// What the error says.
    pub open spec fn text(self) -> Seq<char> {
        match self {
            DecodeError::Header => "couldn't parse session file"@,
            DecodeError::MarksSection => "couldn't parse session file"@,
            DecodeError::MarkDate => "couldn't parse mark heading"@,
            DecodeError::Label => "couldn't parse label"@,
            DecodeError::Attributes => "multiple attributes per mark are not allowed"@,
            DecodeError::NoMarks => "there must be at least one mark for a session to be valid"@,
        }
    }

    /// What the error says.
    pub fn message(&self) -> (r: String)
        ensures
            r@ == self.text(),
    {
        match self {
            DecodeError::Header => string_of(&chars_of("couldn't parse session file")),
            DecodeError::MarksSection => string_of(&chars_of("couldn't parse session file")),
            DecodeError::MarkDate => string_of(&chars_of("couldn't parse mark heading")),
            DecodeError::Label => string_of(&chars_of("couldn't parse label")),
            DecodeError::Attributes => string_of(
                &chars_of("multiple attributes per mark are not allowed"),
            ),
            DecodeError::NoMarks => string_of(
                &chars_of("there must be at least one mark for a session to be valid"),
            ),
        }
    }
}

/// What a mark is: the model that contracts speak of.
pub struct MarkView {
    pub date: DateTime,
    pub attribute: Attribute,
    /// The texts of the tags, in rising order.
    pub tags: Seq<Seq<char>>,
    pub contents: Seq<char>,
}

/// One instant of a session.
#[derive(Clone, Debug, PartialEq, Eq)]
pub struct Mark {
    /// When the mark was made.
    pub date: DateTime,
    /// The status of the mark.
    pub attribute: Attribute,
    /// The tags of the mark, in rising order of their texts, none twice.
    pub tags: Vec<Tag>,
    /// Free notes.
    pub contents: String,
}

impl View for Mark {
    type V = MarkView;

    open spec fn view(&self) -> MarkView {
        MarkView {
            date: self.date,
            attribute: self.attribute,
            tags: tag_views(self.tags@),
            contents: self.contents@,
        }
    }
}

/// Reads the label lines that `body` begins with, starting from the attribute
/// and the tags read so far. Gives the attribute, the tags and the lines left.
///
/// `- end` and `- skip` set the attribute, and a second one of them is an
/// error; every other label line must be a tag line, and its tag joins the set.
pub open spec fn read_labels(
    body: Seq<Seq<char>>,
    attribute: Attribute,
    tags: Seq<Seq<char>>,
) -> Result<(Attribute, Seq<Seq<char>>, Seq<Seq<char>>), DecodeError>
    decreases body.len(),
{
    if body.len() == 0 || !is_label(body[0]) {
        Ok((attribute, tags, body))
    } else {
        let line = trim(body[0]);
        let read = Attribute::spec_from_line(line);
        if read != Attribute::Nothing {
            if attribute != Attribute::Nothing {
                Err(DecodeError::Attributes)
            } else {
                read_labels(body.drop_first(), read, tags)
            }
        } else {
            match tag_of_line(line) {
                Ok(tag) => read_labels(body.drop_first(), attribute, insert_tag(tags, tag)),
                Err(_) => Err(DecodeError::Label),
            }
        }
    }
}

/// A mark at `date`, cut to the whole second, with no attribute, no tag and no notes.
pub open spec fn plain_mark(date: DateTime) -> MarkView {
    MarkView {
        date: date.whole(),
        attribute: Attribute::Nothing,
        tags: Seq::empty(),
        contents: Seq::empty(),
    }
}

/// The mark at `date` that the lines after a heading write. Blank lines are
/// passed over, the label lines are read, and the rest, joined and trimmed,
/// is the notes. The date is cut to the whole second.
pub open spec fn decode_body(date: DateTime, after: Seq<Seq<char>>) -> Result<
    MarkView,
    DecodeError,
> {
    let body = after.skip(blank_count(after) as int);
    match read_labels(body, Attribute::Nothing, Seq::empty()) {
        Err(e) => Err(e),
        Ok((attribute, tags, rest)) => Ok(
            MarkView { date: date.whole(), attribute, tags, contents: trim(join(rest)) },
        ),
    }
}

/// The mark that the lines after a heading write, given what was read from
/// the heading: without a date there is no mark.
pub open spec fn decode_dated(date: Option<DateTime>, after: Seq<Seq<char>>) -> Result<
    MarkView,
    DecodeError,
> {
    match date {
        None => Err(DecodeError::MarkDate),
        Some(date) => decode_body(date, after),
    }
}

/// The mark that a block of lines writes. The first line is the heading: the
/// date stands after its prefix. The lines after it give the labels and the notes.
pub open spec fn decode_mark(block: Seq<Seq<char>>) -> Result<MarkView, DecodeError> {
    decode_dated(
        DateTime::spec_parse(trim(block[0].skip(mark_prefix().len() as int))),
        block.drop_first(),
    )
}

/// The mark that a text writes: the text is trimmed, and its lines are the block.
pub open spec fn mark_of_text(text: Seq<char>) -> Result<MarkView, DecodeError> {
    let block = lines(trim(text));
    if is_mark_heading(block[0]) {
        decode_mark(block)
    } else {
        Err(DecodeError::MarkDate)
    }
}

/// What reading gave is what the model says it gives, and a mark read is well formed.
pub open spec fn mark_agrees(
    r: Result<Mark, DecodeError>,
    model: Result<MarkView, DecodeError>,
) -> bool {
    match r {
        Ok(mark) => model == Ok::<MarkView, DecodeError>(mark@) && mark.wf(),
        Err(e) => model == Err::<MarkView, DecodeError>(e),
    }
}

impl MarkView {
    /// The date is one that `DateTime` holds and has no part below the second,
    /// and the tags are valid and in rising order.
    pub open spec fn wf(self) -> bool {
        &&& self.date.wf()
        &&& self.date.whole_second()
        &&& sorted(self.tags)
        &&& forall|i: int| 0 <= i < self.tags.len() ==> valid_tag(#[trigger] self.tags[i])
    }

    /// The mark has an attribute or a tag.
    pub open spec fn has_labels(self) -> bool {
        self.attribute != Attribute::Nothing || self.tags.len() > 0
    }

    /// The heading line: the prefix and the date in its canonical form.
    pub open spec fn heading(self) -> Seq<char> {
        mark_prefix() + self.date.canonical_text()
    }

    /// The lines of the tags, in the order of the tags.
    pub open spec fn tag_lines(self) -> Seq<Seq<char>> {
        Seq::new(self.tags.len(), |i: int| tag_line(self.tags[i]))
    }

    /// The label lines: the attribute first, if there is one, then the tags.
    pub open spec fn label_lines(self) -> Seq<Seq<char>> {
        if self.attribute != Attribute::Nothing {
            seq![self.attribute.line()] + self.tag_lines()
        } else {
            self.tag_lines()
        }
    }

    /// The block that writes the mark.
    pub open spec fn text(self) -> Seq<char> {
        self.block(self.date.canonical_text())
    }

    /// The block that writes the mark, with `date_text` for its date: the
    /// heading; after an empty line the labels, if there are any; after an
    /// empty line the notes, trimmed, if there are any.
    pub open spec fn block(self, date_text: Seq<char>) -> Seq<char> {
        let labels = if self.has_labels() {
            seq!['\n'] + stacked(self.label_lines())
        } else {
            Seq::empty()
        };
        let notes = if trim(self.contents).len() > 0 {
            seq!['\n', '\n'] + trim(self.contents)
        } else {
            Seq::empty()
        };
        mark_prefix() + date_text + labels + notes
    }
}

impl Mark {
    /// The date is one that `DateTime` holds and has no part below the second,
    /// and the tags are valid and in rising order.
    pub open spec fn wf(&self) -> bool {
        self@.wf()
    }

    /// Whether the mark is well formed.
    pub fn is_wf(&self) -> (r: bool)
        ensures
            r == self.wf(),
    {
        if !self.date.is_wf() || self.date.millis % 1000 != 0 {
            return false;
        }
        let ghost tags = self@.tags;
        let mut i: usize = 0;
        while i < self.tags.len()
            invariant
                i <= self.tags.len(),
                tags == self@.tags,
                sorted(tags.take(i as int)),
                forall|k: int| 0 <= k < i ==> valid_tag(#[trigger] tags[k]),
            decreases self.tags.len() - i,
        {
            if !self.tags[i].is_wf() {
                proof {
                    assert(!valid_tag(tags[i as int]));
                }
                return false;
            }
            if i > 0 {
                let before = chars_of(self.tags[i - 1].text.as_str());
                let here = chars_of(self.tags[i].text.as_str());
                if !text_less(&before, &here) {
                    proof {
                        assert(!text_lt(tags[i - 1], tags[i as int]));
                    }
                    return false;
                }
            }
            proof {
                let next = tags.take(i + 1);
                assert forall|a: int, b: int| 0 <= a < b < next.len() implies text_lt(
                    #[trigger] next[a],
                    #[trigger] next[b],
                ) by {
                    if b < i {
                        assert(tags.take(i as int)[a] == next[a]);
                        assert(tags.take(i as int)[b] == next[b]);
                    } else if a < i - 1 {
                        assert(tags.take(i as int)[a] == next[a]);
                        assert(tags.take(i as int)[i - 1] == next[i - 1]);
                        lemma_lt_transitive(next[a], next[i - 1], next[b]);
                    }
                }
            }
            i += 1;
        }
        proof {
            assert(tags.take(tags.len() as int) =~= tags);
        }
        true
    }

    /// A mark at `date`, cut to the whole second, with no attribute, no tag and no notes.
    pub fn new(date: &DateTime) -> (r: Mark)
        requires
            date.wf(),
        ensures
            r@ == plain_mark(*date),
            r.wf(),
    {
        let r = Mark {
            date: date.truncated(),
            attribute: Attribute::Nothing,
            tags: Vec::new(),
            contents: String::new(),
        };
        proof {
            assert(tag_views(r.tags@) =~= Seq::empty());
        }
        r
    }

    /// Sets the notes to `text`, whatever they were.
    pub fn write(&mut self, text: &str)
        ensures
            final(self)@ == (MarkView { contents: text@, ..old(self)@ }),
    {
        self.contents = text.to_owned();
    }

    /// Removes the notes.
    pub fn erase(&mut self)
        ensures
            final(self)@ == (MarkView { contents: Seq::empty(), ..old(self)@ }),
    {
        self.contents = String::new();
    }

    /// Adds `tag` to the tags; tells whether it was not there before.
    pub fn tag(&mut self, tag: &Tag) -> (added: bool)
        requires
            old(self).wf(),
            tag.wf(),
        ensures
            final(self).wf(),
            added == !old(self)@.tags.contains(tag@),
            final(self)@ == (MarkView { tags: insert_tag(old(self)@.tags, tag@), ..old(self)@ }),
    {
        let ghost before = tag_views(self.tags@);
        proof {
            lemma_insert_tag(before, tag@);
        }
        let (place, found) = find_tag(&self.tags, tag);
        if found {
            false
        } else {
            self.tags.insert(place, tag.copy());
            proof {
                let after = tag_views(self.tags@);
                let model = insert_tag(before, tag@);
                assert(after.len() == model.len());
                assert forall|i: int| 0 <= i < after.len() implies after[i] == model[i] by {
                    if i < place {
                        assert(self.tags@[i] == old(self).tags@[i]);
                    } else if i > place {
                        assert(self.tags@[i] == old(self).tags@[i - 1]);
                    }
                }
                assert(after =~= model);
                assert forall|i: int| 0 <= i < model.len() implies valid_tag(
                    #[trigger] model[i],
                ) by {
                    if i < place {
                        assert(model[i] == before[i]);
                    } else if i > place {
                        assert(model[i] == before[i - 1]);
                    }
                }
            }
            true
        }
    }

    /// Takes `tag` from the tags; tells whether it was there.
    pub fn untag(&mut self, tag: &Tag) -> (removed: bool)
        requires
            old(self).wf(),
        ensures
            final(self).wf(),
            removed == old(self)@.tags.contains(tag@),
            final(self)@ == (MarkView { tags: remove_tag(old(self)@.tags, tag@), ..old(self)@ }),
    {
        let ghost before = tag_views(self.tags@);
        proof {
            lemma_remove_tag(before, tag@);
        }
        let (place, found) = find_tag(&self.tags, tag);
        if found {
            let _ = self.tags.remove(place);
            proof {
                let after = tag_views(self.tags@);
                let model = remove_tag(before, tag@);
                assert(after.len() == model.len());
                assert forall|i: int| 0 <= i < after.len() implies after[i] == model[i] by {
                    if i < place {
                        assert(self.tags@[i] == old(self).tags@[i]);
                    } else {
                        assert(self.tags@[i] == old(self).tags@[i + 1]);
                    }
                }
                assert(after =~= model);
                assert forall|i: int| 0 <= i < model.len() implies valid_tag(
                    #[trigger] model[i],
                ) by {
                    if i < place {
                        assert(model[i] == before[i]);
                    } else {
                        assert(model[i] == before[i + 1]);
                    }
                }
            }
            true
        } else {
            false
        }
    }

    /// The block that writes this mark, as characters.
    pub fn to_chars(&self) -> (r: Vec<char>)
        requires
            self.wf(),
        ensures
            r@ == self@.text(),
    {
        self.block_chars(DateTime::format(&self.date).as_str())
    }

    /// The block that writes this mark, with `date_text` for its date.
    pub fn block_chars(&self, date_text: &str) -> (r: Vec<char>)
        ensures
            r@ == self@.block(date_text@),
    {
        let mut r = chars_of("### ");
        append_chars(&mut r, &chars_of(date_text));
        let ghost labels = self@.label_lines();
        if self.attribute != Attribute::Nothing || self.tags.len() > 0 {
            r.push('\n');
            let ghost head = r@;
            if self.attribute != Attribute::Nothing {
                r.push('\n');
                append_chars(&mut r, &self.attribute.to_chars());
            }
            let ghost first = if self.attribute != Attribute::Nothing {
                seq![self.attribute.line()]
            } else {
                Seq::<Seq<char>>::empty()
            };
            proof {
                if first.len() > 0 {
                    assert(first.drop_last() =~= Seq::<Seq<char>>::empty());
                }
                assert(stacked(Seq::<Seq<char>>::empty()) =~= Seq::<char>::empty());
                assert(r@ =~= head + stacked(first));
                assert(first + self@.tag_lines().take(0) =~= first);
            }
            let mut i: usize = 0;
            while i < self.tags.len()
                invariant
                    i <= self.tags.len(),
                    r@ == head + stacked(first + self@.tag_lines().take(i as int)),
                decreases self.tags.len() - i,
            {
                proof {
                    let done = first + self@.tag_lines().take(i as int);
                    let next = first + self@.tag_lines().take(i + 1);
                    assert(next.drop_last() =~= done);
                    assert(next.last() == tag_line(self.tags@[i as int]@));
                }
                r.push('\n');
                append_chars(&mut r, &self.tags[i].to_chars());
                i += 1;
            }
            proof {
                assert(self@.tag_lines().take(self.tags.len() as int) =~= self@.tag_lines());
                assert(first + self@.tag_lines() =~= labels);
            }
        }
        let notes = trim_chars(&chars_of(self.contents.as_str()));
        if notes.len() > 0 {
            r.push('\n');
            r.push('\n');
            append_chars(&mut r, &notes);
        }
        proof {
            assert(r@ =~= self@.block(date_text@));
        }
        r
    }

    /// The block that writes this mark.
    pub fn to_string(&self) -> (r: String)
        requires
            self.wf(),
        ensures
            r@ == self@.text(),
    {
        string_of(&self.to_chars())
    }

    /// Reads the mark that the lines of `ls` from `from` up to `to` write.
    pub fn from_lines(ls: &Vec<Vec<char>>, from: usize, to: usize) -> (r: Result<
        Mark,
        DecodeError,
    >)
        requires
            from < to <= ls.len(),
            is_mark_heading(ls@[from as int]@),
        ensures
            mark_agrees(r, decode_mark(line_views(ls@).subrange(from as int, to as int))),
    {
        proof {
            reveal_strlit("### ");
            let block = line_views(ls@).subrange(from as int, to as int);
            assert(block[0] == ls@[from as int]@);
            assert(block.drop_first() =~= line_views(ls@).subrange(from + 1, to as int));
        }
        let date_text = trim_chars(&copy_range(&ls[from], 4, ls[from].len()));
        let date = DateTime::parse(string_of(&date_text).as_str());
        Mark::from_dated_lines(date, ls, from + 1, to)
    }

    /// Reads the mark that the lines of `ls` from `from` up to `to` write
    /// after a heading from which `date` was read.
    pub fn from_dated_lines(
        date: Option<DateTime>,
        ls: &Vec<Vec<char>>,
        from: usize,
        to: usize,
    ) -> (r: Result<Mark, DecodeError>)
        requires
            from <= to <= ls.len(),
            date matches Some(d) ==> d.wf(),
        ensures
            mark_agrees(r, decode_dated(date, line_views(ls@).subrange(from as int, to as int))),
    {
        let ghost after = line_views(ls@).subrange(from as int, to as int);
        let cut = match date {
            None => {
                return Err(DecodeError::MarkDate);
            },
            Some(date) => date.truncated(),
        };
        let mut i: usize = from;
        proof {
            assert(after.skip(0) =~= after);
        }
        while i < to && is_blank_line(&ls[i])
            invariant
                from <= i <= to <= ls.len(),
                after == line_views(ls@).subrange(from as int, to as int),
                blank_count(after) == (i - from) + blank_count(after.skip(i - from)),
            decreases to - i,
        {
            proof {
                let here = after.skip(i - from);
                assert(here[0] == ls@[i as int]@);
                assert(here.drop_first() =~= after.skip(i - from + 1));
            }
            i += 1;
        }
        proof {
            let here = after.skip(i - from);
            if i < to {
                assert(here[0] == ls@[i as int]@);
            }
            assert(after.skip(blank_count(after) as int) =~= line_views(ls@).subrange(
                i as int,
                to as int,
            ));
        }
        let ghost body = line_views(ls@).subrange(i as int, to as int);
        let ghost model = decode_dated(date, after);
        let ghost labels = read_labels(body, Attribute::Nothing, Seq::empty());
        proof {
            assert(model == match labels {
                Err(e) => Err::<MarkView, DecodeError>(e),
                Ok((attribute, tags, rest)) => Ok(
                    MarkView { date: cut, attribute, tags, contents: trim(join(rest)) },
                ),
            });
        }
        let mut attribute = Attribute::Nothing;
        let mut tags: Vec<Tag> = Vec::new();
        let prefix = chars_of("- ");
        proof {
            assert(tag_views(tags@) =~= Seq::<Seq<char>>::empty());
        }
        while i < to
            invariant
                from <= i <= to <= ls.len(),
                prefix@ == label_prefix(),
                sorted(tag_views(tags@)),
                forall|k: int| 0 <= k < tags.len() ==> valid_tag(#[trigger] tag_views(tags@)[k]),
                labels == read_labels(
                    line_views(ls@).subrange(i as int, to as int),
                    attribute,
                    tag_views(tags@),
                ),
                labels is Err ==> model is Err && model->Err_0 == labels->Err_0,
                model == decode_dated(date, line_views(ls@).subrange(from as int, to as int)),
            ensures
                from <= i <= to <= ls.len(),
                sorted(tag_views(tags@)),
                forall|k: int| 0 <= k < tags.len() ==> valid_tag(#[trigger] tag_views(tags@)[k]),
                labels == Ok::<(Attribute, Seq<Seq<char>>, Seq<Seq<char>>), DecodeError>(
                    (attribute, tag_views(tags@), line_views(ls@).subrange(i as int, to as int)),
                ),
            decreases to - i,
        {
            let ghost here = line_views(ls@).subrange(i as int, to as int);
            let ghost old_tags = tag_views(tags@);
            proof {
                assert(here[0] == ls@[i as int]@);
                assert(here.drop_first() =~= line_views(ls@).subrange(i + 1, to as int));
            }
            let line = trim_chars(&ls[i]);
            if !has_prefix(&line, &prefix) {
                break ;
            }
            let read = Attribute::from_chars(&line);
            proof {
                crate::text::lemma_trim(ls@[i as int]@);
            }
            if read != Attribute::Nothing {
                if attribute != Attribute::Nothing {
                    return Err(DecodeError::Attributes);
                }
                attribute = read;
            } else {
                match Tag::from_line_chars(&line) {
                    Err(_) => {
                        return Err(DecodeError::Label);
                    },
                    Ok(tag) => {
                        proof {
                            lemma_insert_tag(old_tags, tag@);
                        }
                        let (place, found) = find_tag(&tags, &tag);
                        if !found {
                            tags.insert(place, tag);
                            proof {
                                let now = tag_views(tags@);
                                let model = insert_tag(old_tags, tag@);
                                assert(now.len() == model.len());
                                assert forall|k: int| 0 <= k < now.len() implies now[k]
                                    == model[k] by {
                                    if k < place {
                                        assert(now[k] == old_tags[k]);
                                    } else if k > place {
                                        assert(now[k] == old_tags[k - 1]);
                                    }
                                }
                                assert(now =~= model);
                                assert forall|k: int| 0 <= k < model.len() implies valid_tag(
                                    #[trigger] model[k],
                                ) by {
                                    if k < place {
                                        assert(model[k] == old_tags[k]);
                                    } else if k > place {
                                        assert(model[k] == old_tags[k - 1]);
                                    }
                                }
                            }
                        }
                    },
                }
            }
            i += 1;
        }
        let notes = trim_chars(&join_range(ls, i, to));
        Ok(Mark { date: cut, attribute, tags, contents: string_of(&notes) })
    }

    /// Reads the mark that a block of text writes.
    pub fn from_string(text: &str) -> (r: Result<Mark, DecodeError>)
        ensures
            mark_agrees(r, mark_of_text(text@)),
    {
        let block = split_lines(&trim_chars(&chars_of(text)));
        proof {
            crate::text::lemma_lines_are_lines(trim(text@));
            assert(line_views(block@).subrange(0, block.len() as int) =~= line_views(block@));
        }
        if has_prefix(&block[0], &chars_of("### ")) {
            Mark::from_lines(&block, 0, block.len())
        } else {
            Err(DecodeError::MarkDate)
        }
    }
}

} // verus!
