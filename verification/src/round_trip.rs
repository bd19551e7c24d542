//! Writing a session as a document and reading it back gives the session.
//!
//! This holds of the sessions that are canonical: the notes of each mark are
//! trimmed and hold no line that a reader takes for structure, no tag holds a
//! line feed, and the date of each mark survives its own text.

use crate::date_time::DateTime;
use crate::document::{
    block_len, closes, count_hashes, decode, decode_document, decode_marks, decode_text,
    document_of, document_text, encode, encode_text, heading_level, lemma_block_len_is,
    lemma_hashes_is, marks_heading, marks_text, opens, section_lines, title_prefix, within_after,
    FileView,
};
use crate::label::{
    insert_tag, label_end, label_skip, lemma_insert_tag, lemma_rank, lemma_remove_tag, rank,
    remove_tag, sorted, tag_close, tag_line, tag_of_line, tag_open, text_lt, valid_tag, Attribute,
};
use crate::mark::{
    blank_count, decode_mark, is_label, is_mark_heading, label_prefix, mark_prefix, plain_mark,
    read_labels, DecodeError, Mark, MarkView,
};
use crate::session::{Session, SessionView};
use crate::text::{
    char_is_space, chars_of, has_prefix, is_blank, is_line, is_single_line, is_space, is_trimmed,
    join, lemma_blank, lemma_join_concat, lemma_join_lines, lemma_line_len_bounds,
    lemma_lines_are_lines, lemma_lines_concat, lemma_lines_of_line, lemma_lines_stacked,
    lemma_trim, lemma_trim_is, line_len, line_views, lines, split_lines, stacked, string_of, trim,
    trim_chars,
};
use vstd::prelude::*;

verus! {

/// The text can stand at the end of a heading as it is: one line, not empty,
/// that does not end in white space.
pub open spec fn heading_text(text: Seq<char>) -> bool {
    &&& is_line(text)
    &&& text.len() > 0
    &&& !is_space(text.last())
}

/// The date survives its own text: the canonical text can stand in a heading,
/// and reading it gives the date back.
pub open spec fn date_written(date: DateTime) -> bool {
    let text = date.canonical_text();
    &&& heading_text(text)
    &&& DateTime::spec_parse(trim(text)) == Some(date)
}

/// A reader takes the line for notes: it opens no mark and ends no section of the marks.
pub open spec fn plain_line(line: Seq<char>) -> bool {
    !is_mark_heading(line) && !closes(line, 2)
}

/// The mark is written without loss: it is well formed, its date survives its
/// text, its tags are single lines, its notes are trimmed and hold plain
/// lines only, and where it has no label its notes do not begin with one.
pub open spec fn canonical_mark(mark: MarkView) -> bool {
    &&& mark.wf()
    &&& date_written(mark.date)
    &&& forall|i: int| 0 <= i < mark.tags.len() ==> is_line(#[trigger] mark.tags[i])
    &&& is_trimmed(mark.contents)
    &&& forall|i: int|
        0 <= i < lines(mark.contents).len() ==> plain_line(#[trigger] lines(mark.contents)[i])
    &&& !mark.has_labels() ==> !is_label(lines(mark.contents)[0])
}

/// Every mark of the session is written without loss.
pub open spec fn canonical(session: SessionView) -> bool {
    &&& session.marks.len() >= 1
    &&& forall|i: int| 0 <= i < session.marks.len() ==> canonical_mark(#[trigger] session.marks[i])
}

/// The lines of the block of a mark whose notes are trimmed.
pub open spec fn mark_lines(mark: MarkView) -> Seq<Seq<char>> {
    seq![mark.heading()] + (if mark.has_labels() {
        seq![Seq::<char>::empty()] + mark.label_lines()
    } else {
        Seq::empty()
    }) + (if mark.contents.len() > 0 {
        seq![Seq::<char>::empty()] + lines(mark.contents)
    } else {
        Seq::empty()
    })
}

/// What the fixed texts of a document hold.
pub proof fn lemma_literals()
    ensures
        mark_prefix() == seq!['#', '#', '#', ' '],
        label_prefix() == seq!['-', ' '],
        label_end() == seq!['-', ' ', 'e', 'n', 'd'],
        label_skip() == seq!['-', ' ', 's', 'k', 'i', 'p'],
        tag_open() == seq!['-', ' ', 't', 'a', 'g', ' ', '`'],
        tag_close() == seq!['`'],
        title_prefix() == seq!['#', ' '],
        marks_heading() == seq!['#', '#', ' ', 'M', 'a', 'r', 'k', 's'],
{
    reveal_strlit("### ");
    reveal_strlit("- ");
    reveal_strlit("- end");
    reveal_strlit("- skip");
    reveal_strlit("- tag `");
    reveal_strlit("`");
    reveal_strlit("# ");
    reveal_strlit("## Marks");
    assert(mark_prefix() =~= seq!['#', '#', '#', ' ']);
    assert(label_prefix() =~= seq!['-', ' ']);
    assert(label_end() =~= seq!['-', ' ', 'e', 'n', 'd']);
    assert(label_skip() =~= seq!['-', ' ', 's', 'k', 'i', 'p']);
    assert(tag_open() =~= seq!['-', ' ', 't', 'a', 'g', ' ', '`']);
    assert(tag_close() =~= seq!['`']);
    assert(title_prefix() =~= seq!['#', ' ']);
    assert(marks_heading() =~= seq!['#', '#', ' ', 'M', 'a', 'r', 'k', 's']);
}

/// A text that is trimmed and not empty is its own trimming, and is not blank.
pub proof fn lemma_trimmed(s: Seq<char>)
    requires
        s.len() > 0,
        !is_space(s[0]),
        !is_space(s.last()),
    ensures
        trim(s) == s,
        !is_blank(s),
{
    lemma_trim(s);
}

/// The heading line of a mark whose date survives its text: a single line
/// that opens a mark, ends no section of the marks, and holds the date.
pub proof fn lemma_heading(mark: MarkView)
    requires
        date_written(mark.date),
    ensures
        is_line(mark.heading()),
        is_mark_heading(mark.heading()),
        !closes(mark.heading(), 2),
        !is_blank(mark.heading()),
        mark.heading().len() > 4,
        mark.heading()[0] == '#',
        !is_space(mark.heading().last()),
        DateTime::spec_parse(trim(mark.heading().skip(mark_prefix().len() as int))) == Some(
            mark.date,
        ),
{
    lemma_literals();
    let h = mark.heading();
    let t = mark.date.canonical_text();
    assert(h.take(4) =~= mark_prefix());
    assert(h.skip(4) =~= t);
    assert(h.last() == t.last());
    lemma_trimmed(h);
    lemma_hashes_is(h, 3);
}

/// A label line of a canonical mark: a single line that is a label, opens no
/// mark and ends no section.
pub proof fn lemma_tag_line(tag: Seq<char>)
    requires
        valid_tag(tag),
        is_line(tag),
    ensures
        is_line(tag_line(tag)),
        trim(tag_line(tag)) == tag_line(tag),
        is_label(tag_line(tag)),
        !is_mark_heading(tag_line(tag)),
        !closes(tag_line(tag), 2),
        !is_blank(tag_line(tag)),
        Attribute::spec_from_line(tag_line(tag)) == Attribute::Nothing,
        tag_of_line(tag_line(tag)) == Ok::<Seq<char>, crate::label::TagError>(tag),
        tag_line(tag).last() == '`',
{
    lemma_literals();
    let l = tag_line(tag);
    assert(l.len() == tag.len() + 8);
    assert(l[0] == '-' && l[1] == ' ' && l[2] == 't');
    assert(l.last() == '`');
    assert forall|i: int| 0 <= i < l.len() implies l[i] != '\n' by {
        if 7 <= i < l.len() - 1 {
            assert(l[i] == tag[i - 7]);
        }
    }
    lemma_trimmed(l);
    assert(l.take(2) =~= label_prefix());
    assert(l.take(7) =~= tag_open());
    assert(l.skip(l.len() - 1) =~= tag_close());
    assert(l.subrange(7, l.len() - 1) =~= tag);
    lemma_trim(tag);
    assert(l != label_end());
    assert(l != label_skip());
    if is_mark_heading(l) {
        assert(l.take(4)[0] == '#');
    }
}

/// The line of an attribute: a single line that is a label and reads as the attribute.
pub proof fn lemma_attribute_line(attribute: Attribute)
    requires
        attribute != Attribute::Nothing,
    ensures
        is_line(attribute.line()),
        trim(attribute.line()) == attribute.line(),
        is_label(attribute.line()),
        !is_mark_heading(attribute.line()),
        !closes(attribute.line(), 2),
        !is_blank(attribute.line()),
        Attribute::spec_from_line(attribute.line()) == attribute,
        !is_space(attribute.line().last()),
{
    lemma_literals();
    let l = attribute.line();
    lemma_trimmed(l);
    assert(l.take(2) =~= label_prefix());
    assert(label_end() != label_skip()) by {
        assert(label_end().len() != label_skip().len());
    }
    if is_mark_heading(l) {
        assert(l.take(4)[0] == '#');
    }
}

/// The empty line: blank, no label, no heading.
pub proof fn lemma_empty_line()
    ensures
        is_line(Seq::<char>::empty()),
        is_blank(Seq::<char>::empty()),
        !is_label(Seq::<char>::empty()),
        !is_mark_heading(Seq::<char>::empty()),
        !closes(Seq::<char>::empty(), 2),
        trim(Seq::<char>::empty()) == Seq::<char>::empty(),
        lines(Seq::<char>::empty()) == seq![Seq::<char>::empty()],
{
    lemma_literals();
    let e = Seq::<char>::empty();
    lemma_trim(e);
    assert(trim(e) =~= e);
}

/// The label lines of a canonical mark: single lines that are labels, open no
/// mark, end no section and are not blank.
pub proof fn lemma_label_lines(mark: MarkView)
    requires
        canonical_mark(mark),
    ensures
        forall|i: int|
            0 <= i < mark.label_lines().len() ==> {
                let l = #[trigger] mark.label_lines()[i];
                &&& is_line(l)
                &&& is_label(l)
                &&& !is_mark_heading(l)
                &&& !closes(l, 2)
                &&& !is_blank(l)
                &&& l.len() > 0
                &&& !is_space(l.last())
            },
        mark.has_labels() <==> mark.label_lines().len() > 0,
{
    let ls = mark.label_lines();
    assert forall|i: int| 0 <= i < ls.len() implies {
        let l = #[trigger] ls[i];
        &&& is_line(l)
        &&& is_label(l)
        &&& !is_mark_heading(l)
        &&& !closes(l, 2)
        &&& !is_blank(l)
        &&& l.len() > 0
        &&& !is_space(l.last())
    } by {
        if mark.attribute != Attribute::Nothing {
            if i == 0 {
                lemma_attribute_line(mark.attribute);
                lemma_literals();
            } else {
                assert(ls[i] == tag_line(mark.tags[i - 1]));
                lemma_tag_line(mark.tags[i - 1]);
            }
        } else {
            assert(ls[i] == tag_line(mark.tags[i]));
            lemma_tag_line(mark.tags[i]);
        }
    }
}

/// The lines of the notes of a canonical mark: the first is not blank where
/// there are notes.
pub proof fn lemma_notes(mark: MarkView)
    requires
        canonical_mark(mark),
    ensures
        trim(mark.contents) == mark.contents,
        lines(mark.contents).len() >= 1,
        join(lines(mark.contents)) == mark.contents,
        forall|i: int|
            0 <= i < lines(mark.contents).len() ==> is_line(#[trigger] lines(mark.contents)[i]),
        mark.contents.len() > 0 ==> !is_blank(lines(mark.contents)[0]),
{
    let c = mark.contents;
    lemma_trim(c);
    lemma_lines_are_lines(c);
    lemma_join_lines(c);
    if c.len() > 0 {
        lemma_line_len_bounds(c);
        let first = lines(c)[0];
        assert(c[0] != '\n');
        assert(line_len(c) >= 1);
        assert(first == c.take(line_len(c) as int));
        assert(first[0] == c[0]);
        lemma_blank(first);
    }
}

/// The block of a canonical mark has the lines of the mark, and begins and
/// ends with something other than white space.
pub proof fn lemma_mark_text(mark: MarkView)
    requires
        canonical_mark(mark),
    ensures
        lines(mark.text()) == mark_lines(mark),
        mark.text().len() > 0,
        mark.text()[0] == '#',
        !is_space(mark.text().last()),
        forall|i: int| 0 <= i < mark_lines(mark).len() ==> is_line(#[trigger] mark_lines(mark)[i]),
{
    lemma_heading(mark);
    lemma_label_lines(mark);
    lemma_notes(mark);
    lemma_empty_line();
    let e = Seq::<char>::empty();
    let nl = seq!['\n'];
    let h = mark.heading();
    let labels = mark.label_lines();
    let c = mark.contents;
    lemma_lines_of_line(h);
    // The heading and the labels.
    let x = if mark.has_labels() {
        h + (nl + stacked(labels))
    } else {
        h
    };
    let x_lines = if mark.has_labels() {
        seq![h] + (seq![e] + labels)
    } else {
        seq![h]
    };
    if mark.has_labels() {
        lemma_lines_concat(h, e);
        assert(h + nl + e =~= h + nl);
        lemma_lines_stacked(h + nl, labels);
        assert(h + nl + stacked(labels) =~= x);
        assert(seq![h] + seq![e] + labels =~= x_lines);
        assert(stacked(labels) == stacked(labels.drop_last()) + nl + labels.last());
        assert(x.last() == labels.last().last());
    }
    assert(lines(x) == x_lines);
    assert(x.len() > 0 && x[0] == '#' && !is_space(x.last()));
    if c.len() > 0 {
        let t = x + (seq!['\n', '\n'] + c);
        assert(mark.text() =~= t);
        assert(t =~= (x + nl + e) + nl + c);
        lemma_lines_concat(x + nl + e, c);
        lemma_lines_concat(x, e);
        assert(lines(t) =~= x_lines + seq![e] + lines(c));
        assert(mark_lines(mark) =~= x_lines + seq![e] + lines(c));
        assert(t.last() == c.last());
    } else {
        assert(mark.text() =~= x);
        assert(mark_lines(mark) =~= x_lines);
    }
    assert forall|i: int| 0 <= i < mark_lines(mark).len() implies is_line(
        #[trigger] mark_lines(mark)[i],
    ) by {
        lemma_lines_are_lines(mark.text());
    }
}

/// `blank_count(ls)` is `n` when the first `n` lines are blank and the next is not.
pub proof fn lemma_blank_count_is(ls: Seq<Seq<char>>, n: int)
    requires
        0 <= n <= ls.len(),
        forall|i: int| 0 <= i < n ==> is_blank(#[trigger] ls[i]),
        n < ls.len() ==> !is_blank(ls[n]),
    ensures
        blank_count(ls) == n,
    decreases n,
{
    if n > 0 {
        let rest = ls.drop_first();
        assert forall|i: int| 0 <= i < n - 1 implies is_blank(#[trigger] rest[i]) by {
            assert(rest[i] == ls[i + 1]);
        }
        lemma_blank_count_is(rest, n - 1);
    }
}

/// The lines that write tags.
pub open spec fn tag_lines_of(tags: Seq<Seq<char>>) -> Seq<Seq<char>> {
    Seq::new(tags.len(), |i: int| tag_line(tags[i]))
}

/// Reading the tag lines of sorted tags from the `k`-th on, with the tags
/// before it in hand, gives all the tags and stops at what follows the lines.
pub proof fn lemma_read_tags(
    tags: Seq<Seq<char>>,
    k: int,
    rest: Seq<Seq<char>>,
    attribute: Attribute,
)
    requires
        sorted(tags),
        forall|i: int| 0 <= i < tags.len() ==> valid_tag(#[trigger] tags[i]) && is_line(tags[i]),
        0 <= k <= tags.len(),
        rest.len() > 0 ==> !is_label(rest[0]),
    ensures
        read_labels(tag_lines_of(tags).skip(k) + rest, attribute, tags.take(k)) == Ok::<
            (Attribute, Seq<Seq<char>>, Seq<Seq<char>>),
            DecodeError,
        >((attribute, tags, rest)),
    decreases tags.len() - k,
{
    let body = tag_lines_of(tags).skip(k) + rest;
    if k == tags.len() {
        assert(body =~= rest);
        assert(tags.take(k) =~= tags);
    } else {
        let t = tags[k];
        let held = tags.take(k);
        assert(body[0] == tag_line(t));
        lemma_tag_line(t);
        assert(body.drop_first() =~= tag_lines_of(tags).skip(k + 1) + rest);
        assert forall|i: int, j: int| 0 <= i < j < held.len() implies text_lt(
            #[trigger] held[i],
            #[trigger] held[j],
        ) by {
            assert(held[i] == tags[i] && held[j] == tags[j]);
        }
        lemma_rank(held, t);
        if rank(held, t) < k {
            assert(held[rank(held, t)] == tags[rank(held, t)]);
            assert(text_lt(tags[rank(held, t)], tags[k]));
        }
        assert(insert_tag(held, t) =~= tags.take(k + 1));
        lemma_read_tags(tags, k + 1, rest, attribute);
    }
}

/// Reading the label lines of a canonical mark gives its attribute and its
/// tags, and stops at what follows the lines.
pub proof fn lemma_read_label_lines(mark: MarkView, rest: Seq<Seq<char>>)
    requires
        canonical_mark(mark),
        rest.len() > 0 ==> !is_label(rest[0]),
    ensures
        read_labels(mark.label_lines() + rest, Attribute::Nothing, Seq::empty()) == Ok::<
            (Attribute, Seq<Seq<char>>, Seq<Seq<char>>),
            DecodeError,
        >((mark.attribute, mark.tags, rest)),
{
    let none = Seq::<Seq<char>>::empty();
    assert(mark.tag_lines() =~= tag_lines_of(mark.tags));
    assert(tag_lines_of(mark.tags).skip(0) =~= tag_lines_of(mark.tags));
    assert(mark.tags.take(0) =~= none);
    let body = mark.label_lines() + rest;
    if mark.attribute != Attribute::Nothing {
        lemma_attribute_line(mark.attribute);
        assert(body[0] == mark.attribute.line());
        assert(body.drop_first() =~= tag_lines_of(mark.tags).skip(0) + rest);
        lemma_read_tags(mark.tags, 0, rest, mark.attribute);
    } else {
        assert(body =~= tag_lines_of(mark.tags).skip(0) + rest);
        lemma_read_tags(mark.tags, 0, rest, Attribute::Nothing);
    }
}

/// The notes come back from their lines, whether or not an empty line stands
/// before them or after them.
pub proof fn lemma_notes_rest(notes: Seq<char>, before: bool, after: bool)
    requires
        is_trimmed(notes),
    ensures
        trim(
            join(
                (if before {
                    seq![Seq::<char>::empty()]
                } else {
                    Seq::empty()
                }) + (if notes.len() > 0 {
                    lines(notes)
                } else {
                    Seq::empty()
                }) + (if after {
                    seq![Seq::<char>::empty()]
                } else {
                    Seq::empty()
                }),
            ),
        ) == notes,
{
    let e = Seq::<char>::empty();
    let nl = seq!['\n'];
    let pre = if before {
        seq![e]
    } else {
        Seq::<Seq<char>>::empty()
    };
    let mid = if notes.len() > 0 {
        lines(notes)
    } else {
        Seq::<Seq<char>>::empty()
    };
    let post = if after {
        seq![e]
    } else {
        Seq::<Seq<char>>::empty()
    };
    let all = pre + mid + post;
    let text = join(all);
    if notes.len() == 0 {
        assert(join(Seq::<Seq<char>>::empty()) =~= e);
        assert(join(seq![e]) =~= e);
        if before && after {
            assert(all =~= seq![e, e]);
            assert(all.drop_first() =~= seq![e]);
            assert(text =~= nl);
        } else if before || after {
            assert(all =~= seq![e]);
        } else {
            assert(all =~= Seq::<Seq<char>>::empty());
        }
        assert forall|i: int| 0 <= i < text.len() implies is_space(text[i]) by {}
        lemma_blank(text);
        assert(trim(text) =~= notes);
    } else {
        lemma_join_lines(notes);
        lemma_lines_are_lines(notes);
        let front = pre + mid;
        let a: int = if before {
            1
        } else {
            0
        };
        if before {
            lemma_join_concat(pre, mid);
            assert(join(pre) =~= e);
            assert(join(front) =~= nl + notes);
        } else {
            assert(front =~= mid);
        }
        if after {
            lemma_join_concat(front, post);
            assert(join(post) =~= e);
            assert(text =~= join(front) + nl);
        } else {
            assert(all =~= front);
        }
        assert(text.subrange(a, a + notes.len()) =~= notes);
        assert(text[a] == notes[0]);
        assert(text[a + notes.len() - 1] == notes.last());
        lemma_trim_is(text, a, a + notes.len());
    }
}

/// Reading the lines of the block of a canonical mark gives the mark, whether
/// or not an empty line follows them.
pub proof fn lemma_decode_block(mark: MarkView, more: bool)
    requires
        canonical_mark(mark),
    ensures
        decode_mark(
            mark_lines(mark) + (if more {
                seq![Seq::<char>::empty()]
            } else {
                Seq::empty()
            }),
        ) == Ok::<MarkView, DecodeError>(mark),
{
    lemma_heading(mark);
    lemma_label_lines(mark);
    lemma_notes(mark);
    lemma_empty_line();
    let e = Seq::<char>::empty();
    let tail = if more {
        seq![e]
    } else {
        Seq::<Seq<char>>::empty()
    };
    let labels = mark.label_lines();
    let c = mark.contents;
    let notes = if c.len() > 0 {
        lines(c)
    } else {
        Seq::<Seq<char>>::empty()
    };
    let block = mark_lines(mark) + tail;
    assert(block[0] == mark.heading());
    let after = block.drop_first();
    if mark.has_labels() {
        let rest = (if c.len() > 0 {
            seq![e]
        } else {
            Seq::<Seq<char>>::empty()
        }) + notes + tail;
        assert(after =~= seq![e] + (labels + rest));
        assert(after[1] == labels[0]);
        lemma_blank_count_is(after, 1);
        let body = after.skip(1);
        assert(body =~= labels + rest);
        if rest.len() > 0 {
            assert(rest[0] == e);
        }
        lemma_read_label_lines(mark, rest);
        lemma_notes_rest(c, c.len() > 0, more);
    } else {
        assert(mark.tags =~= Seq::<Seq<char>>::empty());
        if c.len() > 0 {
            assert(after =~= seq![e] + (notes + tail));
            assert(after[1] == notes[0]);
            lemma_blank_count_is(after, 1);
            let body = after.skip(1);
            assert(body =~= notes + tail);
            assert(body[0] == lines(c)[0]);
            assert(Seq::<Seq<char>>::empty() + notes + tail =~= body);
            lemma_notes_rest(c, false, more);
        } else {
            assert(after =~= tail);
            lemma_blank_count_is(after, after.len() as int);
            let body = after.skip(after.len() as int);
            assert(body =~= Seq::<Seq<char>>::empty());
            assert(join(body) =~= e);
            assert(trim(join(body)) =~= c);
        }
    }
}

/// The lines of a document before its marks.
pub open spec fn head_lines() -> Seq<Seq<char>> {
    seq!["# Session"@, Seq::<char>::empty(), marks_heading()]
}

/// The lines of the marks of a document: before each block an empty line.
pub open spec fn body_lines(marks: Seq<MarkView>) -> Seq<Seq<char>>
    decreases marks.len(),
{
    if marks.len() == 0 {
        Seq::empty()
    } else {
        body_lines(marks.drop_last()) + seq![Seq::<char>::empty()] + mark_lines(marks.last())
    }
}

/// The text of a document in canonical form: the title, the heading of the
/// marks, and before each block of a mark an empty line.
pub open spec fn canonical_text(marks: Seq<MarkView>) -> Seq<char>
    decreases marks.len(),
{
    if marks.len() == 0 {
        "# Session\n\n## Marks"@
    } else {
        canonical_text(marks.drop_last()) + seq!['\n', '\n'] + marks.last().text()
    }
}

/// Every mark of `marks` is written without loss.
pub open spec fn all_canonical(marks: Seq<MarkView>) -> bool {
    forall|i: int| 0 <= i < marks.len() ==> canonical_mark(#[trigger] marks[i])
}

/// The marks but the last, and the marks but the first, of canonical marks are canonical.
pub proof fn lemma_all_canonical_parts(marks: Seq<MarkView>)
    requires
        all_canonical(marks),
        marks.len() > 0,
    ensures
        all_canonical(marks.drop_last()),
        all_canonical(marks.drop_first()),
        canonical_mark(marks.last()),
        canonical_mark(marks.first()),
{
    assert forall|i: int| 0 <= i < marks.drop_last().len() implies canonical_mark(
        #[trigger] marks.drop_last()[i],
    ) by {
        assert(marks.drop_last()[i] == marks[i]);
    }
    assert forall|i: int| 0 <= i < marks.drop_first().len() implies canonical_mark(
        #[trigger] marks.drop_first()[i],
    ) by {
        assert(marks.drop_first()[i] == marks[i + 1]);
    }
}

/// What is written for the marks is the canonical text and two line feeds.
pub proof fn lemma_document_text(marks: Seq<MarkView>)
    ensures
        document_text(marks) == canonical_text(marks) + seq!['\n', '\n'],
    decreases marks.len(),
{
    if marks.len() == 0 {
        reveal_strlit("# Session\n\n## Marks\n\n");
        reveal_strlit("# Session\n\n## Marks");
        assert(marks_text(marks) =~= Seq::<char>::empty());
        assert(document_text(marks) =~= canonical_text(marks) + seq!['\n', '\n']);
    } else {
        lemma_document_text(marks.drop_last());
        assert(document_text(marks) =~= document_text(marks.drop_last()) + marks.last().text()
            + seq!['\n', '\n']);
        assert(document_text(marks) =~= canonical_text(marks) + seq!['\n', '\n']);
    }
}

/// The canonical text of canonical marks has the lines of the head and of the
/// marks, begins with `#`, and ends with something other than white space.
pub proof fn lemma_canonical_lines(marks: Seq<MarkView>)
    requires
        all_canonical(marks),
    ensures
        lines(canonical_text(marks)) == head_lines() + body_lines(marks),
        canonical_text(marks).len() > 2,
        canonical_text(marks)[0] == '#',
        canonical_text(marks)[1] == ' ',
        !is_space(canonical_text(marks).last()),
    decreases marks.len(),
{
    let e = Seq::<char>::empty();
    let nl = seq!['\n'];
    lemma_empty_line();
    if marks.len() == 0 {
        reveal_strlit("# Session\n\n## Marks");
        reveal_strlit("# Session");
        lemma_literals();
        let title = "# Session"@;
        let t = canonical_text(marks);
        assert(t =~= (title + nl + e) + nl + marks_heading());
        lemma_lines_concat(title + nl + e, marks_heading());
        lemma_lines_concat(title, e);
        lemma_lines_of_line(title);
        lemma_lines_of_line(marks_heading());
        assert(lines(t) =~= head_lines() + body_lines(marks));
    } else {
        let front = marks.drop_last();
        let m = marks.last();
        lemma_all_canonical_parts(marks);
        lemma_canonical_lines(front);
        lemma_mark_text(m);
        let t0 = canonical_text(front);
        let t = canonical_text(marks);
        assert(t =~= (t0 + nl + e) + nl + m.text());
        lemma_lines_concat(t0 + nl + e, m.text());
        lemma_lines_concat(t0, e);
        assert(lines(t) =~= head_lines() + body_lines(marks));
        assert(t[0] == t0[0]);
        assert(t[1] == t0[1]);
        assert(t.last() == m.text().last());
    }
}

/// What is written for canonical marks passes for a document: trimmed, it is
/// the canonical text.
pub proof fn lemma_document_passes(marks: Seq<MarkView>)
    requires
        all_canonical(marks),
    ensures
        document_of(document_text(marks)) == Ok::<Seq<char>, DecodeError>(canonical_text(marks)),
{
    lemma_document_text(marks);
    lemma_canonical_lines(marks);
    lemma_literals();
    let c = canonical_text(marks);
    let d = document_text(marks);
    assert(d.subrange(0, c.len() as int) =~= c);
    lemma_trim_is(d, 0, c.len() as int);
    assert(c.take(2) =~= title_prefix());
    let ls = lines(c);
    assert(ls[2] == marks_heading());
    assert(opens(ls[2], marks_heading()));
}

/// The lines of the block of a canonical mark: none ends a section of the
/// marks, and none but the first opens a mark.
pub proof fn lemma_mark_lines(mark: MarkView)
    requires
        canonical_mark(mark),
    ensures
        mark_lines(mark).len() >= 1,
        mark_lines(mark)[0] == mark.heading(),
        is_mark_heading(mark_lines(mark)[0]),
        forall|i: int|
            0 <= i < mark_lines(mark).len() ==> !closes(#[trigger] mark_lines(mark)[i], 2),
        forall|i: int|
            1 <= i < mark_lines(mark).len() ==> !is_mark_heading(#[trigger] mark_lines(mark)[i]),
{
    lemma_heading(mark);
    lemma_label_lines(mark);
    lemma_notes(mark);
    lemma_empty_line();
    let ls = mark_lines(mark);
    let labels = mark.label_lines();
    let a: int = if mark.has_labels() {
        1 + labels.len() as int
    } else {
        0
    };
    assert forall|i: int| 1 <= i < ls.len() implies !closes(#[trigger] ls[i], 2)
        && !is_mark_heading(ls[i]) by {
        if mark.has_labels() && i <= a {
            if i > 1 {
                assert(ls[i] == labels[i - 2]);
            }
        } else {
            if i > a + 1 {
                assert(ls[i] == lines(mark.contents)[i - a - 2]);
            }
        }
    }
}

/// The lines of the marks of canonical marks: none ends a section of the marks.
pub proof fn lemma_body_lines(marks: Seq<MarkView>)
    requires
        all_canonical(marks),
    ensures
        forall|i: int|
            0 <= i < body_lines(marks).len() ==> !closes(#[trigger] body_lines(marks)[i], 2),
    decreases marks.len(),
{
    if marks.len() > 0 {
        lemma_all_canonical_parts(marks);
        lemma_body_lines(marks.drop_last());
        lemma_mark_lines(marks.last());
        lemma_empty_line();
        let front = body_lines(marks.drop_last());
        let block = mark_lines(marks.last());
        assert forall|i: int| 0 <= i < body_lines(marks).len() implies !closes(
            #[trigger] body_lines(marks)[i],
            2,
        ) by {
            if i < front.len() {
                assert(body_lines(marks)[i] == front[i]);
            } else if i > front.len() {
                assert(body_lines(marks)[i] == block[i - front.len() - 1]);
            }
        }
    }
}

/// The lines of the marks, taken from the first mark on.
pub proof fn lemma_body_front(marks: Seq<MarkView>)
    requires
        marks.len() >= 1,
    ensures
        body_lines(marks) == seq![Seq::<char>::empty()] + mark_lines(marks[0]) + body_lines(
            marks.drop_first(),
        ),
    decreases marks.len(),
{
    let e = Seq::<char>::empty();
    if marks.len() == 1 {
        assert(marks.drop_last() =~= Seq::<MarkView>::empty());
        assert(marks.drop_first() =~= Seq::<MarkView>::empty());
        assert(body_lines(marks) =~= seq![e] + mark_lines(marks[0]) + body_lines(
            marks.drop_first(),
        ));
    } else {
        lemma_body_front(marks.drop_last());
        assert(marks.drop_first().drop_last() =~= marks.drop_last().drop_first());
        assert(marks.drop_last()[0] == marks[0]);
        assert(marks.drop_first().last() == marks.last());
        assert(body_lines(marks) =~= seq![e] + mark_lines(marks[0]) + body_lines(
            marks.drop_first(),
        ));
    }
}

/// An open section holds every line up to one that ends it.
pub proof fn lemma_section_open(ls: Seq<Seq<char>>, heading: Seq<char>)
    requires
        forall|i: int| 0 <= i < ls.len() ==> !closes(#[trigger] ls[i], heading_level(heading)),
    ensures
        section_lines(ls, heading, true) == ls,
    decreases ls.len(),
{
    if ls.len() > 0 {
        let rest = ls.drop_first();
        assert forall|i: int| 0 <= i < rest.len() implies !closes(
            #[trigger] rest[i],
            heading_level(heading),
        ) by {
            assert(rest[i] == ls[i + 1]);
        }
        assert(!closes(ls[0], heading_level(heading)));
        lemma_section_open(rest, heading);
        assert(seq![ls[0]] + rest =~= ls);
    } else {
        assert(section_lines(ls, heading, true) =~= ls);
    }
}

/// The section of the marks in a canonical document: the heading and the lines of the marks.
pub proof fn lemma_section(marks: Seq<MarkView>)
    requires
        all_canonical(marks),
    ensures
        section_lines(head_lines() + body_lines(marks), marks_heading(), false) == seq![
            marks_heading(),
        ] + body_lines(marks),
{
    reveal_strlit("# Session");
    lemma_literals();
    lemma_empty_line();
    lemma_body_lines(marks);
    let e = Seq::<char>::empty();
    let h = marks_heading();
    let title = "# Session"@;
    let body = body_lines(marks);
    let all = head_lines() + body;
    lemma_trimmed(h);
    lemma_trimmed(title);
    lemma_hashes_is(h, 2);
    lemma_hashes_is(title, 1);
    assert(heading_level(h) == 2);
    // The title ends what is open and opens nothing.
    assert(all[0] == title);
    assert(title.len() != h.len());
    assert(!opens(title, h));
    assert(closes(title, 2));
    assert(within_after(title, h, false) == false);
    let all1 = all.drop_first();
    assert(all1 =~= seq![e, h] + body);
    // The empty line changes nothing.
    assert(all1[0] == e);
    assert(!opens(e, h));
    assert(within_after(e, h, false) == false);
    let all2 = all1.drop_first();
    assert(all2 =~= seq![h] + body);
    // The heading opens the section.
    assert(all2[0] == h);
    assert(opens(h, h));
    let all3 = all2.drop_first();
    assert(all3 =~= body);
    lemma_section_open(body, h);
    assert(section_lines(all2, h, false) == seq![h] + body);
    assert(section_lines(all1, h, false) == section_lines(all2, h, false));
    assert(section_lines(all, h, false) == section_lines(all1, h, false));
}

/// Lines that open no mark, before others, are passed over.
pub proof fn lemma_decode_skip(before: Seq<Seq<char>>, rest: Seq<Seq<char>>)
    requires
        forall|i: int| 0 <= i < before.len() ==> !is_mark_heading(#[trigger] before[i]),
    ensures
        decode_marks(before + rest) == decode_marks(rest),
    decreases before.len(),
{
    if before.len() == 0 {
        assert(before + rest =~= rest);
    } else {
        let all = before + rest;
        assert(all[0] == before[0]);
        assert(all.drop_first() =~= before.drop_first() + rest);
        assert forall|i: int| 0 <= i < before.drop_first().len() implies !is_mark_heading(
            #[trigger] before.drop_first()[i],
        ) by {
            assert(before.drop_first()[i] == before[i + 1]);
        }
        lemma_decode_skip(before.drop_first(), rest);
    }
}

/// Reading the blocks of canonical marks, from the heading of the first, gives the marks.
pub proof fn lemma_decode_body(marks: Seq<MarkView>)
    requires
        marks.len() >= 1,
        all_canonical(marks),
    ensures
        decode_marks(mark_lines(marks[0]) + body_lines(marks.drop_first())) == Ok::<
            Seq<MarkView>,
            DecodeError,
        >(marks),
    decreases marks.len(),
{
    let e = Seq::<char>::empty();
    let m = marks[0];
    let rest = marks.drop_first();
    let block = mark_lines(m);
    let ls = block + body_lines(rest);
    lemma_all_canonical_parts(marks);
    lemma_mark_lines(m);
    lemma_empty_line();
    assert(ls[0] == block[0]);
    let after = ls.drop_first();
    if rest.len() == 0 {
        assert(body_lines(rest) =~= Seq::<Seq<char>>::empty());
        assert(ls =~= block);
        assert forall|i: int| 0 <= i < after.len() implies !is_mark_heading(
            #[trigger] after[i],
        ) by {
            assert(after[i] == block[i + 1]);
        }
        lemma_block_len_is(after, after.len() as int);
        let n = 1 + block_len(after) as int;
        assert(ls.take(n) =~= block + Seq::<Seq<char>>::empty());
        assert(ls.skip(n) =~= Seq::<Seq<char>>::empty());
        lemma_decode_block(m, false);
        assert(decode_mark(ls.take(n)) == Ok::<MarkView, DecodeError>(m));
        assert(decode_marks(ls.skip(n)) == Ok::<Seq<MarkView>, DecodeError>(Seq::empty()));
        assert(seq![m] + Seq::<MarkView>::empty() =~= marks);
    } else {
        lemma_body_front(rest);
        lemma_mark_lines(rest[0]);
        let next = mark_lines(rest[0]) + body_lines(rest.drop_first());
        assert(body_lines(rest) =~= seq![e] + next);
        assert(ls =~= block + seq![e] + next);
        let k = block.len() as int;
        assert forall|i: int| 0 <= i < k implies !is_mark_heading(#[trigger] after[i]) by {
            if i < k - 1 {
                assert(after[i] == block[i + 1]);
            } else {
                assert(after[i] == e);
            }
        }
        assert(after[k] == next[0]);
        assert(next[0] == mark_lines(rest[0])[0]);
        lemma_block_len_is(after, k);
        let n = 1 + k;
        assert(ls.take(n) =~= block + seq![e]);
        assert(ls.skip(n) =~= next);
        lemma_decode_block(m, true);
        lemma_decode_body(rest);
        assert(decode_mark(ls.take(n)) == Ok::<MarkView, DecodeError>(m));
        assert(decode_marks(ls.skip(n)) == Ok::<Seq<MarkView>, DecodeError>(rest));
        assert(seq![m] + rest =~= marks);
    }
}

/// Writing canonical marks as a document and reading the document gives the marks.
pub proof fn lemma_marks_round_trip(marks: Seq<MarkView>)
    requires
        marks.len() >= 1,
        all_canonical(marks),
    ensures
        document_of(document_text(marks)) == Ok::<Seq<char>, DecodeError>(canonical_text(marks)),
        decode_document(canonical_text(marks)) == Ok::<Seq<MarkView>, DecodeError>(marks),
{
    lemma_document_passes(marks);
    lemma_canonical_lines(marks);
    lemma_section(marks);
    lemma_body_front(marks);
    lemma_literals();
    lemma_empty_line();
    let e = Seq::<char>::empty();
    let h = marks_heading();
    let start = mark_lines(marks[0]) + body_lines(marks.drop_first());
    let section = seq![h] + body_lines(marks);
    assert(section =~= seq![h, e] + start);
    if is_mark_heading(h) {
        assert(h.take(4)[2] == '#');
    }
    lemma_decode_skip(seq![h, e], start);
    lemma_decode_body(marks);
}

/// Writing a canonical session as a document and reading the document back
/// gives the session. What is written is the canonical text of its marks.
pub proof fn lemma_round_trip(session: SessionView)
    requires
        canonical(session),
    ensures
        encode(session) == Ok::<FileView, DecodeError>(
            FileView { path: session.path, contents: canonical_text(session.marks) },
        ),
        decode(encode(session)->Ok_0) == Ok::<SessionView, DecodeError>(session),
        encode_text(session) == Ok::<Seq<char>, DecodeError>(canonical_text(session.marks)),
        decode_text(session.path, encode_text(session)->Ok_0) == Ok::<SessionView, DecodeError>(
            session,
        ),
{
    lemma_marks_round_trip(session.marks);
    lemma_trim(document_text(session.marks));
}

/// The document is in canonical form: it is what writes some canonical session.
pub open spec fn canonical_file(file: FileView) -> bool {
    exists|session: SessionView|
        canonical(session) && #[trigger] encode(session) == Ok::<FileView, DecodeError>(file)
}

/// Reading a document in canonical form and writing what was read gives the
/// document back, as a file and as a text.
pub proof fn lemma_canonical_file_is_stable(file: FileView)
    requires
        canonical_file(file),
    ensures
        decode(file) is Ok,
        encode(decode(file)->Ok_0) == Ok::<FileView, DecodeError>(file),
        decode_text(file.path, file.contents) == decode(file),
        encode_text(decode(file)->Ok_0) == Ok::<Seq<char>, DecodeError>(file.contents),
{
    let session = choose|session: SessionView|
        canonical(session) && #[trigger] encode(session) == Ok::<FileView, DecodeError>(file);
    lemma_round_trip(session);
}

/// Notes that a canonical mark can hold: trimmed, and of plain lines only.
pub open spec fn plain_notes(text: Seq<char>) -> bool {
    &&& is_trimmed(text)
    &&& forall|i: int| 0 <= i < lines(text).len() ==> plain_line(#[trigger] lines(text)[i])
}

/// A canonical session with a canonical mark in the place of its last mark,
/// or after it, is canonical.
pub proof fn lemma_canonical_with(session: SessionView, mark: MarkView)
    requires
        canonical(session),
        canonical_mark(mark),
    ensures
        canonical(session.with_last(mark)),
        canonical(session.with_more(mark)),
{
    let last = session.with_last(mark);
    assert forall|i: int| 0 <= i < last.marks.len() implies canonical_mark(
        #[trigger] last.marks[i],
    ) by {
        if i < last.marks.len() - 1 {
            assert(last.marks[i] == session.marks[i]);
        }
    }
    let more = session.with_more(mark);
    assert forall|i: int| 0 <= i < more.marks.len() implies canonical_mark(
        #[trigger] more.marks[i],
    ) by {
        if i < more.marks.len() - 1 {
            assert(more.marks[i] == session.marks[i]);
        }
    }
}

/// A plain mark at a date that survives its text is canonical, with or without `Stop`.
pub proof fn lemma_plain_mark(date: DateTime, attribute: Attribute)
    requires
        date.wf(),
        date_written(date.whole()),
    ensures
        canonical_mark(MarkView { attribute, ..plain_mark(date) }),
{
    lemma_empty_line();
}

/// A session that starts at a date that survives its text is canonical.
pub proof fn lemma_new_is_canonical(path: Seq<char>, date: DateTime)
    requires
        date.wf(),
        date_written(date.whole()),
    ensures
        canonical(SessionView { path, marks: seq![plain_mark(date)] }),
{
    lemma_plain_mark(date, Attribute::Nothing);
}

/// The changes to a session keep it canonical: `mark`, `stop` and `remark`
/// where the date survives its text; `unmark`, `skip` and `erase` always;
/// `tag` where the tag is a single line; `untag` where the last mark keeps a
/// label or its notes do not begin with one; `write` where the notes are
/// plain and, on a mark without a label, do not begin with one.
pub proof fn lemma_changes_keep_canonical(
    session: SessionView,
    date: DateTime,
    tag: Seq<char>,
    text: Seq<char>,
)
    requires
        canonical(session),
    ensures
        date.wf() && date_written(date.whole()) ==> {
            &&& session.marked(date) matches Ok(after) ==> canonical(after)
            &&& session.stopped(date) matches Ok(after) ==> canonical(after)
            &&& canonical(session.remarked(date))
        },
        canonical(session.unmarked()),
        canonical(session.skipped()),
        canonical(session.erased()),
        valid_tag(tag) && is_line(tag) ==> canonical(session.tagged(tag)),
        session.untagged(tag).marks.last().has_labels() || !is_label(
            lines(session.marks.last().contents)[0],
        ) ==> canonical(session.untagged(tag)),
        plain_notes(text) && (session.marks.last().has_labels() || !is_label(lines(text)[0]))
            ==> (session.written(text) matches Ok(after) ==> canonical(after)),
{
    let last = session.marks.last();
    assert(canonical_mark(session.marks[session.marks.len() - 1]));
    lemma_empty_line();
    if date.wf() && date_written(date.whole()) {
        lemma_plain_mark(date, Attribute::Nothing);
        lemma_plain_mark(date, Attribute::Stop);
        lemma_canonical_with(session, plain_mark(date));
        lemma_canonical_with(session, MarkView { attribute: Attribute::Stop, ..plain_mark(date) });
        lemma_canonical_with(session, MarkView { date: date.whole(), ..last });
    }
    if session.marks.len() > 1 {
        let less = session.unmarked();
        assert forall|i: int| 0 <= i < less.marks.len() implies canonical_mark(
            #[trigger] less.marks[i],
        ) by {
            assert(less.marks[i] == session.marks[i]);
        }
    }
    lemma_canonical_with(session, MarkView { attribute: Attribute::Skip, ..last });
    lemma_canonical_with(session, MarkView { contents: Seq::empty(), ..last });
    if valid_tag(tag) && is_line(tag) {
        let tags = insert_tag(last.tags, tag);
        lemma_insert_tag(last.tags, tag);
        lemma_rank(last.tags, tag);
        let k = rank(last.tags, tag);
        assert forall|i: int| 0 <= i < tags.len() implies valid_tag(#[trigger] tags[i])
            && is_line(tags[i]) by {
            if tags == last.tags {
                assert(valid_tag(last.tags[i]) && is_line(last.tags[i]));
            } else if i < k {
                assert(tags[i] == last.tags[i]);
            } else if i > k {
                assert(tags[i] == last.tags[i - 1]);
            }
        }
        lemma_canonical_with(session, MarkView { tags, ..last });
    }
    let fewer = MarkView { tags: remove_tag(last.tags, tag), ..last };
    if fewer.has_labels() || !is_label(lines(last.contents)[0]) {
        lemma_remove_tag(last.tags, tag);
        lemma_rank(last.tags, tag);
        let k = rank(last.tags, tag);
        assert forall|i: int| 0 <= i < fewer.tags.len() implies valid_tag(
            #[trigger] fewer.tags[i],
        ) && is_line(fewer.tags[i]) by {
            if fewer.tags == last.tags {
                assert(valid_tag(last.tags[i]) && is_line(last.tags[i]));
            } else if i < k {
                assert(fewer.tags[i] == last.tags[i]);
            } else {
                assert(fewer.tags[i] == last.tags[i + 1]);
            }
        }
        lemma_canonical_with(session, fewer);
    }
    if plain_notes(text) && (last.has_labels() || !is_label(lines(text)[0])) {
        lemma_canonical_with(session, MarkView { contents: text, ..last });
    }
}

/// Whether the text can stand at the end of a heading as it is.
pub fn is_heading_text(text: &Vec<char>) -> (r: bool)
    ensures
        r == heading_text(text@),
{
    is_single_line(text) && text.len() > 0 && !char_is_space(text[text.len() - 1])
}

/// Whether what was read is the date `date`.
pub fn is_date_read(date: &DateTime, read: Option<DateTime>) -> (r: bool)
    ensures
        r == (read == Some(*date)),
{
    match read {
        Some(read) => read.millis == date.millis && read.offset == date.offset,
        None => false,
    }
}

/// Whether the date survives its own text.
pub fn date_is_written(date: &DateTime) -> (r: bool)
    requires
        date.wf(),
    ensures
        r == date_written(*date),
{
    let text = chars_of(date.to_formatted().as_str());
    let read = DateTime::parse(string_of(&trim_chars(&text)).as_str());
    is_heading_text(&text) && is_date_read(date, read)
}

/// Whether a reader takes the line for notes.
pub fn is_plain_line(line: &Vec<char>) -> (r: bool)
    ensures
        r == plain_line(line@),
{
    if has_prefix(line, &chars_of("### ")) {
        return false;
    }
    !(line.len() > 0 && line[0] == '#' && count_hashes(&trim_chars(line)) <= 2)
}

impl Mark {
    /// Whether the mark is written without loss.
    pub fn is_canonical(&self) -> (r: bool)
        requires
            self.wf(),
        ensures
            r == canonical_mark(self@),
    {
        if !date_is_written(&self.date) {
            return false;
        }
        let mut i: usize = 0;
        while i < self.tags.len()
            invariant
                i <= self.tags.len(),
                forall|k: int| 0 <= k < i ==> is_line(#[trigger] self@.tags[k]),
            decreases self.tags.len() - i,
        {
            if !is_single_line(&chars_of(self.tags[i].text.as_str())) {
                proof {
                    assert(!is_line(self@.tags[i as int]));
                }
                return false;
            }
            i += 1;
        }
        let notes = chars_of(self.contents.as_str());
        if notes.len() > 0 && (char_is_space(notes[0]) || char_is_space(notes[notes.len() - 1])) {
            return false;
        }
        let ls = split_lines(&notes);
        proof {
            lemma_lines_are_lines(notes@);
        }
        let mut j: usize = 0;
        while j < ls.len()
            invariant
                j <= ls.len(),
                line_views(ls@) == lines(self@.contents),
                forall|k: int| 0 <= k < j ==> plain_line(#[trigger] lines(self@.contents)[k]),
            decreases ls.len() - j,
        {
            if !is_plain_line(&ls[j]) {
                proof {
                    assert(!plain_line(lines(self@.contents)[j as int]));
                }
                return false;
            }
            j += 1;
        }
        if self.attribute == Attribute::Nothing && self.tags.len() == 0 {
            let first = trim_chars(&ls[0]);
            proof {
                assert(line_views(ls@)[0] == ls@[0]@);
            }
            if has_prefix(&first, &chars_of("- ")) {
                return false;
            }
        }
        true
    }
}

impl Session {
    /// Whether the session is written without loss: reading its document gives it back.
    pub fn is_canonical(&self) -> (r: bool)
        requires
            self.wf(),
        ensures
            r == canonical(self@),
            r ==> encode(self@) is Ok && decode(encode(self@)->Ok_0) == Ok::<
                SessionView,
                DecodeError,
            >(self@),
    {
        let mut i: usize = 0;
        while i < self.marks.len()
            invariant
                i <= self.marks.len(),
                self.wf(),
                forall|k: int| 0 <= k < i ==> canonical_mark(#[trigger] self@.marks[k]),
            decreases self.marks.len() - i,
        {
            proof {
                assert(self@.marks[i as int] == self.marks@[i as int]@);
                assert(self@.marks[i as int].wf());
            }
            if !self.marks[i].is_canonical() {
                return false;
            }
            i += 1;
        }
        proof {
            lemma_round_trip(self@);
        }
        true
    }
}

} // verus!
