//! The labels of a mark: its attribute and its tags, and the lines that write them.

use crate::text::{
    append_chars, char_is_space, chars_of, copy_range, ends_with, has_prefix, has_suffix,
    is_trimmed, lemma_trim, same_text, starts_with, string_of, trim, trim_chars,
};
use vstd::prelude::*;

verus! {

/// The line that writes the attribute `Stop`.
pub open spec fn label_end() -> Seq<char> {
    "- end"@
}

/// The line that writes the attribute `Skip`.
pub open spec fn label_skip() -> Seq<char> {
    "- skip"@
}

/// What a tag line begins with.
pub open spec fn tag_open() -> Seq<char> {
    "- tag `"@
}

/// What a tag line ends with.
pub open spec fn tag_close() -> Seq<char> {
    "`"@
}

/// The status of a mark. A mark has one attribute at most; `Nothing` stands for none.
#[derive(Clone, Copy, Debug, PartialEq, Eq, Structural)]
pub enum Attribute {
    /// The session ended at this mark.
    Stop,
    /// The time from this mark on, up to the next mark, is not counted.
    Skip,
    /// The mark has no attribute.
    Nothing,
}

impl Attribute {
    /// The attribute that the line `text` writes, `Nothing` if it writes none.
    pub open spec fn spec_from_line(text: Seq<char>) -> Attribute {
        let line = trim(text);
        if line == label_end() {
            Attribute::Stop
        } else if line == label_skip() {
            Attribute::Skip
        } else {
            Attribute::Nothing
        }
    }

    /// The attribute that the word `text` names: `end` or `skip`.
    pub open spec fn spec_from_text(text: Seq<char>) -> Option<Attribute> {
        let word = trim(text);
        if word == "end"@ {
            Some(Attribute::Stop)
        } else if word == "skip"@ {
            Some(Attribute::Skip)
        } else {
            None
        }
    }

    /// The line that writes this attribute; no text for `Nothing`.
    pub open spec fn line(self) -> Seq<char> {
        match self {
            Attribute::Stop => label_end(),
            Attribute::Skip => label_skip(),
            Attribute::Nothing => Seq::empty(),
        }
    }

    /// Reads the attribute that a line writes.
    pub fn from_chars(line: &Vec<char>) -> (r: Attribute)
        ensures
            r == Attribute::spec_from_line(line@),
    {
        let line = trim_chars(line);
        if same_text(&line, &chars_of("- end")) {
            Attribute::Stop
        } else if same_text(&line, &chars_of("- skip")) {
            Attribute::Skip
        } else {
            Attribute::Nothing
        }
    }

    /// The attribute that a word names, if it names one.
    pub fn from_text(text: &str) -> (r: Option<Attribute>)
        ensures
            r == Attribute::spec_from_text(text@),
    {
        let word = trim_chars(&chars_of(text));
        if same_text(&word, &chars_of("end")) {
            Some(Attribute::Stop)
        } else if same_text(&word, &chars_of("skip")) {
            Some(Attribute::Skip)
        } else {
            None
        }
    }

    /// Reads the attribute that a line writes.
    pub fn from_line(text: &str) -> (r: Attribute)
        ensures
            r == Attribute::spec_from_line(text@),
    {
        Attribute::from_chars(&chars_of(text))
    }

    /// The line that writes this attribute.
    pub fn to_chars(&self) -> (r: Vec<char>)
        ensures
            r@ == self.line(),
    {
        match self {
            Attribute::Stop => chars_of("- end"),
            Attribute::Skip => chars_of("- skip"),
            Attribute::Nothing => Vec::new(),
        }
    }

    /// The line that writes this attribute.
    pub fn to_line(&self) -> (r: String)
        ensures
            r@ == self.line(),
    {
        string_of(&self.to_chars())
    }
}

/// Why a text is no tag, or a line no tag line.
#[derive(Clone, Copy, Debug, PartialEq, Eq, Structural)]
pub enum TagError {
    /// Nothing is left of the text once it is trimmed.
    Empty,
    /// The text holds a backtick, which delimits a tag in its line.
    Backtick,
    /// The line does not have the form of a tag line.
    Malformed,
}

impl TagError {
    /// What the error says.
    pub open spec fn text(self) -> Seq<char> {
        match self {
            TagError::Empty => "tag cannot be empty"@,
            TagError::Backtick => "invalid character \"`\""@,
            TagError::Malformed => "couldn't parse tag"@,
        }
    }

    /// What the error says.
    pub fn message(&self) -> (r: String)
        ensures
            r@ == self.text(),
    {
        match self {
            TagError::Empty => string_of(&chars_of("tag cannot be empty")),
            TagError::Backtick => string_of(&chars_of("invalid character \"`\"")),
            TagError::Malformed => string_of(&chars_of("couldn't parse tag")),
        }
    }
}

/// A text can be a tag: it is not empty, is trimmed and holds no backtick.
pub open spec fn valid_tag(t: Seq<char>) -> bool {
    &&& t.len() > 0
    &&& is_trimmed(t)
    &&& !t.contains('`')
}

/// The tag that the text `text` gives, once trimmed.
pub open spec fn tag_of_text(text: Seq<char>) -> Result<Seq<char>, TagError> {
    let t = trim(text);
    if t.len() == 0 {
        Err(TagError::Empty)
    } else if t.contains('`') {
        Err(TagError::Backtick)
    } else {
        Ok(t)
    }
}

/// The line that writes the tag `t`.
pub open spec fn tag_line(t: Seq<char>) -> Seq<char> {
    tag_open() + t + tag_close()
}

/// The tag that the line `line` writes: what stands between `` - tag ` `` and the closing backtick.
pub open spec fn tag_of_line(line: Seq<char>) -> Result<Seq<char>, TagError> {
    if line.len() >= tag_open().len() + tag_close().len() && starts_with(line, tag_open())
        && ends_with(line, tag_close()) {
        tag_of_text(line.subrange(tag_open().len() as int, line.len() - tag_close().len()))
    } else {
        Err(TagError::Malformed)
    }
}

/// `a` comes before `b` in the order of a dictionary, characters compared by their code.
pub open spec fn text_lt(a: Seq<char>, b: Seq<char>) -> bool
    decreases a.len(),
{
    if b.len() == 0 {
        false
    } else if a.len() == 0 {
        true
    } else if a[0] != b[0] {
        a[0] < b[0]
    } else {
        text_lt(a.drop_first(), b.drop_first())
    }
}

/// The texts stand in strictly rising order, so none occurs twice.
pub open spec fn sorted(tags: Seq<Seq<char>>) -> bool {
    forall|i: int, j: int|
        0 <= i < j < tags.len() ==> text_lt(#[trigger] tags[i], #[trigger] tags[j])
}

/// How many of the texts at the head of `tags` come before `t`.
pub open spec fn rank(tags: Seq<Seq<char>>, t: Seq<char>) -> int
    decreases tags.len(),
{
    if tags.len() > 0 && text_lt(tags[0], t) {
        1 + rank(tags.drop_first(), t)
    } else {
        0
    }
}

/// `tags` with `t` at its place in the order, unless `t` is there already.
pub open spec fn insert_tag(tags: Seq<Seq<char>>, t: Seq<char>) -> Seq<Seq<char>> {
    let k = rank(tags, t);
    if k < tags.len() && tags[k] == t {
        tags
    } else {
        tags.take(k) + seq![t] + tags.skip(k)
    }
}

/// `tags` without `t`.
pub open spec fn remove_tag(tags: Seq<Seq<char>>, t: Seq<char>) -> Seq<Seq<char>> {
    let k = rank(tags, t);
    if k < tags.len() && tags[k] == t {
        tags.take(k) + tags.skip(k + 1)
    } else {
        tags
    }
}

/// The texts of the tags of `v`.
pub open spec fn tag_views(v: Seq<Tag>) -> Seq<Seq<char>> {
    Seq::new(v.len(), |i: int| v[i]@)
}

/// No text comes before itself.
pub proof fn lemma_lt_irreflexive(a: Seq<char>)
    ensures
        !text_lt(a, a),
    decreases a.len(),
{
    if a.len() > 0 {
        lemma_lt_irreflexive(a.drop_first());
    }
}

/// Of two different texts one comes before the other, and never both.
pub proof fn lemma_lt_total(a: Seq<char>, b: Seq<char>)
    ensures
        a != b ==> text_lt(a, b) || text_lt(b, a),
        !(text_lt(a, b) && text_lt(b, a)),
    decreases a.len(),
{
    if a.len() > 0 && b.len() > 0 {
        if a[0] == b[0] {
            lemma_lt_total(a.drop_first(), b.drop_first());
            if a.drop_first() == b.drop_first() {
                assert(a =~= seq![a[0]] + a.drop_first());
                assert(b =~= seq![b[0]] + b.drop_first());
            }
        }
    } else if a.len() == 0 && b.len() == 0 {
        assert(a =~= b);
    }
}

/// What comes before a text that comes before a third comes before the third.
pub proof fn lemma_lt_transitive(a: Seq<char>, b: Seq<char>, c: Seq<char>)
    requires
        text_lt(a, b),
        text_lt(b, c),
    ensures
        text_lt(a, c),
    decreases a.len(),
{
    if a.len() > 0 {
        if a[0] == b[0] && b[0] == c[0] {
            lemma_lt_transitive(a.drop_first(), b.drop_first(), c.drop_first());
        }
    }
}

/// Where two texts agree on their first `n` characters, the rest decides their order.
pub proof fn lemma_lt_after_common(a: Seq<char>, b: Seq<char>, n: int)
    requires
        0 <= n <= a.len(),
        n <= b.len(),
        a.take(n) == b.take(n),
    ensures
        text_lt(a, b) == text_lt(a.skip(n), b.skip(n)),
    decreases n,
{
    if n == 0 {
        assert(a.skip(0) =~= a);
        assert(b.skip(0) =~= b);
    } else {
        assert(a[0] == a.take(n)[0]);
        assert(b[0] == b.take(n)[0]);
        let a1 = a.drop_first();
        let b1 = b.drop_first();
        assert(a1.take(n - 1) =~= a.take(n).drop_first());
        assert(b1.take(n - 1) =~= b.take(n).drop_first());
        lemma_lt_after_common(a1, b1, n - 1);
        assert(a1.skip(n - 1) =~= a.skip(n));
        assert(b1.skip(n - 1) =~= b.skip(n));
    }
}

/// In sorted texts, those before the rank of `t` come before `t` and no other does;
/// `t` can stand at its rank only.
pub proof fn lemma_rank(tags: Seq<Seq<char>>, t: Seq<char>)
    requires
        sorted(tags),
    ensures
        0 <= rank(tags, t) <= tags.len(),
        forall|i: int| 0 <= i < rank(tags, t) ==> text_lt(#[trigger] tags[i], t),
        forall|i: int| rank(tags, t) <= i < tags.len() ==> !text_lt(#[trigger] tags[i], t),
        forall|i: int| 0 <= i < tags.len() && #[trigger] tags[i] == t ==> i == rank(tags, t),
        tags.contains(t) <==> (rank(tags, t) < tags.len() && tags[rank(tags, t)] == t),
    decreases tags.len(),
{
    if tags.len() > 0 {
        let rest = tags.drop_first();
        assert forall|i: int, j: int| 0 <= i < j < rest.len() implies text_lt(
            #[trigger] rest[i],
            #[trigger] rest[j],
        ) by {
            assert(rest[i] == tags[i + 1] && rest[j] == tags[j + 1]);
        }
        if text_lt(tags[0], t) {
            lemma_rank(rest, t);
            let k = rank(tags, t);
            assert forall|i: int| 0 <= i < k implies text_lt(#[trigger] tags[i], t) by {
                if i > 0 {
                    assert(tags[i] == rest[i - 1]);
                }
            }
            assert forall|i: int| k <= i < tags.len() implies !text_lt(#[trigger] tags[i], t) by {
                assert(tags[i] == rest[i - 1]);
            }
            assert forall|i: int| 0 <= i < tags.len() && #[trigger] tags[i] == t implies i
                == k by {
                if i == 0 {
                    lemma_lt_irreflexive(t);
                } else {
                    assert(rest[i - 1] == t);
                }
            }
        } else {
            assert forall|i: int| 0 <= i < tags.len() implies !text_lt(#[trigger] tags[i], t) by {
                if i > 0 && text_lt(tags[i], t) {
                    lemma_lt_transitive(tags[0], tags[i], t);
                }
            }
            assert forall|i: int| 0 <= i < tags.len() && #[trigger] tags[i] == t implies i
                == 0 by {
                if i > 0 {
                    assert(text_lt(tags[0], tags[i]));
                }
            }
        }
        let k = rank(tags, t);
        if tags.contains(t) {
            let i = choose|i: int| 0 <= i < tags.len() && tags[i] == t;
            assert(tags[i] == t);
        }
    }
}

/// Inserting into sorted texts leaves them sorted and adds the one text to what they hold.
pub proof fn lemma_insert_tag(tags: Seq<Seq<char>>, t: Seq<char>)
    requires
        sorted(tags),
    ensures
        sorted(insert_tag(tags, t)),
        insert_tag(tags, t).contains(t),
        forall|u: Seq<char>| insert_tag(tags, t).contains(u) <==> (u == t || tags.contains(u)),
        tags.contains(t) ==> insert_tag(tags, t) == tags,
        !tags.contains(t) ==> insert_tag(tags, t).len() == tags.len() + 1,
{
    lemma_rank(tags, t);
    let k = rank(tags, t);
    let r = insert_tag(tags, t);
    if k < tags.len() && tags[k] == t {
        assert(tags.contains(t));
    } else {
        assert forall|i: int, j: int| 0 <= i < j < r.len() implies text_lt(
            #[trigger] r[i],
            #[trigger] r[j],
        ) by {
            if k < tags.len() {
                lemma_lt_total(tags[k], t);
            }
            if j < k {
                assert(r[i] == tags[i] && r[j] == tags[j]);
            } else if j == k {
                assert(r[i] == tags[i]);
            } else if i < k {
                assert(r[i] == tags[i] && r[j] == tags[j - 1]);
            } else if i == k {
                assert(r[j] == tags[j - 1]);
                if j - 1 > k {
                    lemma_lt_transitive(t, tags[k], tags[j - 1]);
                }
            } else {
                assert(r[i] == tags[i - 1] && r[j] == tags[j - 1]);
            }
        }
        assert(r[k] == t);
        assert forall|u: Seq<char>| r.contains(u) <==> (u == t || tags.contains(u)) by {
            if r.contains(u) {
                let i = choose|i: int| 0 <= i < r.len() && r[i] == u;
                if i < k {
                    assert(tags[i] == u);
                } else if i > k {
                    assert(tags[i - 1] == u);
                }
            }
            if tags.contains(u) {
                let i = choose|i: int| 0 <= i < tags.len() && tags[i] == u;
                if i < k {
                    assert(r[i] == u);
                } else {
                    assert(r[i + 1] == u);
                }
            }
        }
    }
}

/// Removing from sorted texts leaves them sorted and takes the one text from what they hold.
pub proof fn lemma_remove_tag(tags: Seq<Seq<char>>, t: Seq<char>)
    requires
        sorted(tags),
    ensures
        sorted(remove_tag(tags, t)),
        !remove_tag(tags, t).contains(t),
        forall|u: Seq<char>| remove_tag(tags, t).contains(u) <==> (u != t && tags.contains(u)),
        !tags.contains(t) ==> remove_tag(tags, t) == tags,
        tags.contains(t) ==> remove_tag(tags, t).len() == tags.len() - 1,
{
    lemma_rank(tags, t);
    let k = rank(tags, t);
    let r = remove_tag(tags, t);
    if k < tags.len() && tags[k] == t {
        assert forall|i: int, j: int| 0 <= i < j < r.len() implies text_lt(
            #[trigger] r[i],
            #[trigger] r[j],
        ) by {
            let a = if i < k {
                i
            } else {
                i + 1
            };
            let b = if j < k {
                j
            } else {
                j + 1
            };
            assert(r[i] == tags[a] && r[j] == tags[b]);
        }
        assert forall|u: Seq<char>| r.contains(u) <==> (u != t && tags.contains(u)) by {
            if r.contains(u) {
                let i = choose|i: int| 0 <= i < r.len() && r[i] == u;
                let a = if i < k {
                    i
                } else {
                    i + 1
                };
                assert(tags[a] == u);
            }
            if u != t && tags.contains(u) {
                let i = choose|i: int| 0 <= i < tags.len() && tags[i] == u;
                if i < k {
                    assert(r[i] == u);
                } else {
                    assert(r[i - 1] == u);
                }
            }
        }
    } else {
        assert forall|u: Seq<char>| r.contains(u) <==> (u != t && tags.contains(u)) by {
        }
    }
}

/// A text label on a mark.
#[derive(Clone, Debug, PartialEq, Eq, Hash)]
pub struct Tag {
    /// The label: not empty, trimmed, without a backtick.
    pub text: String,
}

impl View for Tag {
    type V = Seq<char>;

    open spec fn view(&self) -> Seq<char> {
        self.text@
    }
}

impl Tag {
    /// The text of this tag can be a tag.
    pub open spec fn wf(&self) -> bool {
        valid_tag(self@)
    }

    /// Whether the text of this tag can be a tag.
    pub fn is_wf(&self) -> (r: bool)
        ensures
            r == self.wf(),
    {
        let t = chars_of(self.text.as_str());
        if t.len() == 0 || char_is_space(t[0]) || char_is_space(t[t.len() - 1]) {
            return false;
        }
        let mut i: usize = 0;
        while i < t.len()
            invariant
                i <= t.len(),
                t@ == self@,
                valid_tag(t@) == !t@.contains('`'),
                forall|k: int| 0 <= k < i ==> t@[k] != '`',
            decreases t.len() - i,
        {
            if t[i] == '`' {
                proof {
                    assert(t@[i as int] == '`');
                    assert(t@.contains('`'));
                }
                return false;
            }
            i += 1;
        }
        true
    }

    /// The tag with the text `t`, if `t` is one that a tag can have once trimmed.
    fn from_chars(t: &Vec<char>) -> (r: Result<Tag, TagError>)
        ensures
            r is Ok <==> tag_of_text(t@) is Ok,
            r matches Ok(tag) ==> tag_of_text(t@) == Ok::<Seq<char>, TagError>(tag@) && tag.wf(),
            r matches Err(e) ==> tag_of_text(t@) == Err::<Seq<char>, TagError>(e),
    {
        let inner = trim_chars(t);
        proof {
            lemma_trim(t@);
        }
        if inner.len() == 0 {
            return Err(TagError::Empty);
        }
        let mut i: usize = 0;
        while i < inner.len()
            invariant
                i <= inner.len(),
                inner@ == trim(t@),
                inner@.len() > 0,
                forall|k: int| 0 <= k < i ==> inner@[k] != '`',
            decreases inner.len() - i,
        {
            if inner[i] == '`' {
                proof {
                    assert(inner@[i as int] == '`');
                    assert(inner@.contains('`'));
                }
                return Err(TagError::Backtick);
            }
            i += 1;
        }
        Ok(Tag { text: string_of(&inner) })
    }

    /// The tag with the text `text`, trimmed. An empty text is refused, and one with a backtick.
    pub fn from_text(text: &str) -> (r: Result<Tag, TagError>)
        ensures
            r is Ok <==> tag_of_text(text@) is Ok,
            r matches Ok(tag) ==> tag_of_text(text@) == Ok::<Seq<char>, TagError>(tag@)
                && tag.wf(),
            r matches Err(e) ==> tag_of_text(text@) == Err::<Seq<char>, TagError>(e),
    {
        Tag::from_chars(&chars_of(text))
    }

    /// Reads the tag that a tag line writes.
    pub fn from_line_chars(line: &Vec<char>) -> (r: Result<Tag, TagError>)
        ensures
            r is Ok <==> tag_of_line(line@) is Ok,
            r matches Ok(tag) ==> tag_of_line(line@) == Ok::<Seq<char>, TagError>(tag@)
                && tag.wf(),
            r matches Err(e) ==> tag_of_line(line@) == Err::<Seq<char>, TagError>(e),
    {
        let open = chars_of("- tag `");
        let close = chars_of("`");
        proof {
            reveal_strlit("- tag `");
            reveal_strlit("`");
        }
        if line.len() >= 8 && has_prefix(line, &open) && has_suffix(line, &close) {
            let inner = copy_range(line, 7, line.len() - 1);
            Tag::from_chars(&inner)
        } else {
            Err(TagError::Malformed)
        }
    }

    /// Reads the tag that a tag line writes: `` - tag `text` ``.
    pub fn from_line(text: &str) -> (r: Result<Tag, TagError>)
        ensures
            r is Ok <==> tag_of_line(text@) is Ok,
            r matches Ok(tag) ==> tag_of_line(text@) == Ok::<Seq<char>, TagError>(tag@)
                && tag.wf(),
            r matches Err(e) ==> tag_of_line(text@) == Err::<Seq<char>, TagError>(e),
    {
        Tag::from_line_chars(&chars_of(text))
    }

    /// The line that writes this tag.
    pub fn to_chars(&self) -> (r: Vec<char>)
        ensures
            r@ == tag_line(self@),
    {
        let mut r = chars_of("- tag `");
        append_chars(&mut r, &chars_of(self.text.as_str()));
        append_chars(&mut r, &chars_of("`"));
        r
    }

    /// The line that writes this tag.
    pub fn to_line(&self) -> (r: String)
        requires
            self.wf(),
        ensures
            r@ == tag_line(self@),
    {
        string_of(&self.to_chars())
    }

    /// The text of this tag.
    pub fn text(&self) -> (r: String)
        ensures
            r@ == self@,
    {
        self.text.clone()
    }

    /// A tag with the same text.
    pub fn copy(&self) -> (r: Tag)
        ensures
            r@ == self@,
    {
        Tag { text: self.text.clone() }
    }
}

/// Whether `a` comes before `b` in the order of a dictionary.
pub fn text_less(a: &Vec<char>, b: &Vec<char>) -> (r: bool)
    ensures
        r == text_lt(a@, b@),
{
    let mut i: usize = 0;
    while i < a.len() && i < b.len()
        invariant
            i <= a.len(),
            i <= b.len(),
            a@.take(i as int) == b@.take(i as int),
        decreases a.len() - i,
    {
        proof {
            lemma_lt_after_common(a@, b@, i as int);
        }
        if a[i] != b[i] {
            proof {
                assert(a@.skip(i as int)[0] == a@[i as int]);
                assert(b@.skip(i as int)[0] == b@[i as int]);
            }
            return a[i] < b[i];
        }
        proof {
            assert(a@.take(i + 1) =~= a@.take(i as int).push(a@[i as int]));
            assert(b@.take(i + 1) =~= b@.take(i as int).push(b@[i as int]));
        }
        i += 1;
    }
    proof {
        lemma_lt_after_common(a@, b@, i as int);
    }
    i < b.len()
}

/// The place of `t` among the sorted tags `tags`, and whether it stands there.
pub fn find_tag(tags: &Vec<Tag>, t: &Tag) -> (r: (usize, bool))
    requires
        sorted(tag_views(tags@)),
    ensures
        r.0 == rank(tag_views(tags@), t@),
        r.0 <= tags.len(),
        r.1 == tag_views(tags@).contains(t@),
        r.1 ==> r.0 < tags.len() && tags@[r.0 as int]@ == t@,
{
    let ghost views = tag_views(tags@);
    let text = chars_of(t.text.as_str());
    let mut i: usize = 0;
    proof {
        assert(views.skip(0) =~= views);
    }
    while i < tags.len()
        invariant
            i <= tags.len(),
            views == tag_views(tags@),
            sorted(views),
            text@ == t@,
            rank(views, t@) == i + rank(views.skip(i as int), t@),
        decreases tags.len() - i,
    {
        let here = chars_of(tags[i].text.as_str());
        proof {
            assert(views.skip(i as int)[0] == here@);
            assert(views.skip(i as int).drop_first() =~= views.skip(i + 1));
        }
        if !text_less(&here, &text) {
            proof {
                lemma_rank(views, t@);
            }
            return (i, same_text(&here, &text));
        }
        i += 1;
    }
    proof {
        lemma_rank(views, t@);
    }
    (i, false)
}

} // verus!
