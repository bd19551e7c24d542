//! Character sequences: the text model that the rest of the library speaks in.
//!
//! A text is a `Seq<char>`. Its lines are the pieces between line feeds, so a
//! text always has at least one line and joining its lines gives it back.
//! Trimming removes the white space at both ends.

use vstd::prelude::*;
use vstd::std_specs::iter::IteratorSpec;

verus! {

broadcast use vstd::string::group_string_axioms;

/// `String::push` appends one character.
pub assume_specification[ String::push ](s: &mut String, c: char)
    ensures
        final(s)@ == old(s)@.push(c),
;

/// White space: the characters that carry the Unicode property of that name.
pub open spec fn is_space(c: char) -> bool {
    let n = c as u32;
    ||| 0x09 <= n <= 0x0D
    ||| n == 0x20
    ||| n == 0x85
    ||| n == 0xA0
    ||| n == 0x1680
    ||| 0x2000 <= n <= 0x200A
    ||| n == 0x2028
    ||| n == 0x2029
    ||| n == 0x202F
    ||| n == 0x205F
    ||| n == 0x3000
}

/// How many characters of white space `s` begins with.
pub open spec fn leading_spaces(s: Seq<char>) -> nat
    decreases s.len(),
{
    if s.len() > 0 && is_space(s[0]) {
        1 + leading_spaces(s.drop_first())
    } else {
        0
    }
}

/// How many characters of white space `s` ends with.
pub open spec fn trailing_spaces(s: Seq<char>) -> nat
    decreases s.len(),
{
    if s.len() > 0 && is_space(s.last()) {
        1 + trailing_spaces(s.drop_last())
    } else {
        0
    }
}

/// `s` without the white space it begins with.
pub open spec fn trim_start(s: Seq<char>) -> Seq<char> {
    s.skip(leading_spaces(s) as int)
}

/// `s` without the white space it ends with.
pub open spec fn trim_end(s: Seq<char>) -> Seq<char> {
    s.take(s.len() - trailing_spaces(s))
}

/// `s` without the white space at either end.
pub open spec fn trim(s: Seq<char>) -> Seq<char> {
    trim_end(trim_start(s))
}

/// Neither the first nor the last character of `s` is white space.
pub open spec fn is_trimmed(s: Seq<char>) -> bool {
    s.len() > 0 ==> !is_space(s[0]) && !is_space(s.last())
}

/// `s` holds nothing but white space.
pub open spec fn is_blank(s: Seq<char>) -> bool {
    trim(s).len() == 0
}

/// `s` begins with `p`.
pub open spec fn starts_with(s: Seq<char>, p: Seq<char>) -> bool {
    p.len() <= s.len() && s.take(p.len() as int) == p
}

/// `s` ends with `p`.
pub open spec fn ends_with(s: Seq<char>, p: Seq<char>) -> bool {
    p.len() <= s.len() && s.skip(s.len() - p.len()) == p
}

/// The length of the first line of `s`: the characters before its first line feed.
pub open spec fn line_len(s: Seq<char>) -> nat
    decreases s.len(),
{
    if s.len() == 0 || s[0] == '\n' {
        0
    } else {
        1 + line_len(s.drop_first())
    }
}

/// The lines of `s`: what stands between its line feeds, in order.
pub open spec fn lines(s: Seq<char>) -> Seq<Seq<char>>
    decreases s.len(),
{
    let n = line_len(s) as int;
    if n >= s.len() {
        seq![s]
    } else {
        seq![s.take(n)] + lines(s.skip(n + 1))
    }
}

/// The lines `ls` with a line feed between each two.
pub open spec fn join(ls: Seq<Seq<char>>) -> Seq<char>
    decreases ls.len(),
{
    if ls.len() == 0 {
        Seq::empty()
    } else if ls.len() == 1 {
        ls[0]
    } else {
        ls[0] + seq!['\n'] + join(ls.drop_first())
    }
}

/// The lines `ls`, each with a line feed before it.
pub open spec fn stacked(ls: Seq<Seq<char>>) -> Seq<char>
    decreases ls.len(),
{
    if ls.len() == 0 {
        Seq::empty()
    } else {
        stacked(ls.drop_last()) + seq!['\n'] + ls.last()
    }
}

/// `s` holds no line feed.
pub open spec fn is_line(s: Seq<char>) -> bool {
    forall|i: int| 0 <= i < s.len() ==> s[i] != '\n'
}

/// What each text of `v` holds.
pub open spec fn line_views(v: Seq<Vec<char>>) -> Seq<Seq<char>> {
    Seq::new(v.len(), |i: int| v[i]@)
}

/// `leading_spaces(s)` is `n` when the first `n` characters are white space and the next is not.
pub proof fn lemma_leading_spaces(s: Seq<char>, n: int)
    requires
        0 <= n <= s.len(),
        forall|i: int| 0 <= i < n ==> is_space(s[i]),
        n < s.len() ==> !is_space(s[n]),
    ensures
        leading_spaces(s) == n,
    decreases n,
{
    if n > 0 {
        let t = s.drop_first();
        assert forall|i: int| 0 <= i < n - 1 implies is_space(t[i]) by {
            assert(t[i] == s[i + 1]);
        }
        lemma_leading_spaces(t, n - 1);
    }
}

/// `trailing_spaces(s)` is `n` when the last `n` characters are white space
/// and the one before is not.
pub proof fn lemma_trailing_spaces(s: Seq<char>, n: int)
    requires
        0 <= n <= s.len(),
        forall|i: int| s.len() - n <= i < s.len() ==> is_space(s[i]),
        n < s.len() ==> !is_space(s[s.len() - n - 1]),
    ensures
        trailing_spaces(s) == n,
    decreases n,
{
    if n > 0 {
        let t = s.drop_last();
        lemma_trailing_spaces(t, n - 1);
    }
}

/// The white space counted at either end is there, and what follows it is not white space.
pub proof fn lemma_spaces_bounds(s: Seq<char>)
    ensures
        leading_spaces(s) <= s.len(),
        trailing_spaces(s) <= s.len(),
        forall|i: int| 0 <= i < leading_spaces(s) ==> is_space(s[i]),
        leading_spaces(s) < s.len() ==> !is_space(s[leading_spaces(s) as int]),
        forall|i: int| s.len() - trailing_spaces(s) <= i < s.len() ==> is_space(s[i]),
        trailing_spaces(s) < s.len() ==> !is_space(s[s.len() - trailing_spaces(s) - 1]),
    decreases s.len(),
{
    if s.len() > 0 {
        if is_space(s[0]) {
            let t = s.drop_first();
            lemma_spaces_bounds(t);
            assert forall|i: int| 0 <= i < leading_spaces(s) implies is_space(s[i]) by {
                if i > 0 {
                    assert(s[i] == t[i - 1]);
                }
            }
        }
        if is_space(s.last()) {
            let t = s.drop_last();
            lemma_spaces_bounds(t);
            assert forall|i: int| s.len() - trailing_spaces(s) <= i < s.len() implies is_space(
                s[i],
            ) by {
                if i < s.len() - 1 {
                    assert(s[i] == t[i]);
                }
            }
        }
    }
}

/// Trimming gives a trimmed text, and leaves a trimmed text as it is.
pub proof fn lemma_trim(s: Seq<char>)
    ensures
        is_trimmed(trim(s)),
        trim(s).len() <= s.len(),
        is_trimmed(s) ==> trim(s) == s,
        trim(trim(s)) == trim(s),
{
    lemma_spaces_bounds(s);
    let a = trim_start(s);
    lemma_spaces_bounds(a);
    let t = trim(s);
    if t.len() > 0 {
        assert(t[0] == a[0]);
        assert(a[0] == s[leading_spaces(s) as int]);
        assert(t.last() == a[a.len() - trailing_spaces(a) - 1]);
    }
    lemma_spaces_bounds(t);
    assert(t.skip(0) =~= t);
    assert(t.take(t.len() as int) =~= t);
    if is_trimmed(s) {
        assert(s.skip(0) =~= s);
        assert(s.take(s.len() as int) =~= s);
    }
}

/// A text made of white space alone trims to nothing, and only such a text does.
pub proof fn lemma_blank(s: Seq<char>)
    ensures
        is_blank(s) <==> forall|i: int| 0 <= i < s.len() ==> is_space(s[i]),
{
    lemma_spaces_bounds(s);
    let a = trim_start(s);
    lemma_spaces_bounds(a);
    if forall|i: int| 0 <= i < s.len() ==> is_space(s[i]) {
        lemma_leading_spaces(s, s.len() as int);
    } else {
        let k = choose|k: int| 0 <= k < s.len() && !is_space(s[k]);
        assert(leading_spaces(s) <= k);
        assert(a.len() > 0);
        if trailing_spaces(a) == a.len() {
            assert(is_space(a[k - leading_spaces(s)]));
        }
    }
}

/// `trim(s)` is the part of `s` from `a` to `b` when white space alone stands
/// outside that part and none at its two ends.
pub proof fn lemma_trim_is(s: Seq<char>, a: int, b: int)
    requires
        0 <= a <= b <= s.len(),
        forall|i: int| 0 <= i < a ==> is_space(s[i]),
        forall|i: int| b <= i < s.len() ==> is_space(s[i]),
        a < b ==> !is_space(s[a]) && !is_space(s[b - 1]),
    ensures
        trim(s) == s.subrange(a, b),
{
    if a < b {
        lemma_leading_spaces(s, a);
        let t = s.skip(a);
        assert forall|i: int| t.len() - (s.len() - b) <= i < t.len() implies is_space(t[i]) by {
            assert(t[i] == s[i + a]);
        }
        lemma_trailing_spaces(t, s.len() - b);
        assert(trim(s) =~= s.subrange(a, b));
    } else {
        assert forall|i: int| 0 <= i < s.len() implies is_space(s[i]) by {
            if i < a {
            } else {
            }
        }
        lemma_blank(s);
        assert(trim(s) =~= s.subrange(a, b));
    }
}

/// `line_len(s)` is `n` when no line feed stands before `n` and one stands there, or `s` ends.
pub proof fn lemma_line_len(s: Seq<char>, n: int)
    requires
        0 <= n <= s.len(),
        forall|i: int| 0 <= i < n ==> s[i] != '\n',
        n < s.len() ==> s[n] == '\n',
    ensures
        line_len(s) == n,
    decreases n,
{
    if n > 0 {
        let t = s.drop_first();
        assert forall|i: int| 0 <= i < n - 1 implies t[i] != '\n' by {
            assert(t[i] == s[i + 1]);
        }
        lemma_line_len(t, n - 1);
    }
}

/// The first line ends before the text does, holds no line feed, and a line feed follows it.
pub proof fn lemma_line_len_bounds(s: Seq<char>)
    ensures
        line_len(s) <= s.len(),
        forall|i: int| 0 <= i < line_len(s) ==> s[i] != '\n',
        line_len(s) < s.len() ==> s[line_len(s) as int] == '\n',
    decreases s.len(),
{
    if s.len() > 0 && s[0] != '\n' {
        let t = s.drop_first();
        lemma_line_len_bounds(t);
        assert forall|i: int| 0 <= i < line_len(s) implies s[i] != '\n' by {
            if i > 0 {
                assert(s[i] == t[i - 1]);
            }
        }
    }
}

/// A text has at least one line, and none of its lines holds a line feed.
pub proof fn lemma_lines_are_lines(s: Seq<char>)
    ensures
        lines(s).len() >= 1,
        forall|i: int| 0 <= i < lines(s).len() ==> is_line(#[trigger] lines(s)[i]),
    decreases s.len(),
{
    lemma_line_len_bounds(s);
    let n = line_len(s) as int;
    if n < s.len() {
        lemma_lines_are_lines(s.skip(n + 1));
    }
}

/// A text without a line feed is its own single line.
pub proof fn lemma_lines_of_line(s: Seq<char>)
    requires
        is_line(s),
    ensures
        lines(s) == seq![s],
{
    lemma_line_len(s, s.len() as int);
}

/// The lines of two texts with a line feed between them are the lines of the
/// first followed by the lines of the second.
pub proof fn lemma_lines_concat(a: Seq<char>, b: Seq<char>)
    ensures
        lines(a + seq!['\n'] + b) == lines(a) + lines(b),
    decreases a.len(),
{
    let s = a + seq!['\n'] + b;
    lemma_line_len_bounds(a);
    let n = line_len(a) as int;
    assert forall|i: int| 0 <= i < n implies s[i] != '\n' by {
        assert(s[i] == a[i]);
    }
    if n < a.len() {
        assert(s[n] == a[n]);
    } else {
        assert(s[n] == '\n');
    }
    lemma_line_len(s, n);
    assert(s.take(n) =~= a.take(n));
    if n < a.len() {
        let a2 = a.skip(n + 1);
        assert(s.skip(n + 1) =~= a2 + seq!['\n'] + b);
        lemma_lines_concat(a2, b);
        assert(lines(s) =~= lines(a) + lines(b));
    } else {
        assert(s.skip(n + 1) =~= b);
        assert(a.take(n) =~= a);
        assert(lines(s) =~= lines(a) + lines(b));
    }
}

/// Joining the lines of a text gives the text back.
pub proof fn lemma_join_lines(s: Seq<char>)
    ensures
        join(lines(s)) == s,
    decreases s.len(),
{
    lemma_line_len_bounds(s);
    let n = line_len(s) as int;
    if n < s.len() {
        let rest = s.skip(n + 1);
        lemma_join_lines(rest);
        lemma_lines_are_lines(rest);
        let ls = lines(s);
        assert(ls.drop_first() =~= lines(rest));
        assert(join(ls) =~= s);
    } else {
    }
}

/// Joining two runs of lines puts a line feed between what each of them joins to.
pub proof fn lemma_join_concat(a: Seq<Seq<char>>, b: Seq<Seq<char>>)
    requires
        a.len() > 0,
        b.len() > 0,
    ensures
        join(a + b) == join(a) + seq!['\n'] + join(b),
    decreases a.len(),
{
    let ab = a + b;
    if a.len() == 1 {
        assert(ab.drop_first() =~= b);
    } else {
        assert(ab.drop_first() =~= a.drop_first() + b);
        lemma_join_concat(a.drop_first(), b);
        assert(join(ab) =~= join(a) + seq!['\n'] + join(b));
    }
}

/// Lines stacked under a text are the lines that follow its own.
pub proof fn lemma_lines_stacked(head: Seq<char>, ls: Seq<Seq<char>>)
    requires
        forall|i: int| 0 <= i < ls.len() ==> is_line(#[trigger] ls[i]),
    ensures
        lines(head + stacked(ls)) == lines(head) + ls,
    decreases ls.len(),
{
    if ls.len() == 0 {
        assert(head + stacked(ls) =~= head);
        assert(lines(head) + ls =~= lines(head));
    } else {
        let front = ls.drop_last();
        assert forall|i: int| 0 <= i < front.len() implies is_line(#[trigger] front[i]) by {
            assert(front[i] == ls[i]);
        }
        lemma_lines_stacked(head, front);
        lemma_lines_concat(head + stacked(front), ls.last());
        lemma_lines_of_line(ls.last());
        assert(head + stacked(ls) =~= head + stacked(front) + seq!['\n'] + ls.last());
        assert(lines(head) + front + seq![ls.last()] =~= lines(head) + ls);
    }
}

/// Whether `c` is white space.
pub fn char_is_space(c: char) -> (b: bool)
    ensures
        b == is_space(c),
{
    let n: u32 = c as u32;
    (0x09 <= n && n <= 0x0D) || n == 0x20 || n == 0x85 || n == 0xA0 || n == 0x1680 || (0x2000 <= n
        && n <= 0x200A) || n == 0x2028 || n == 0x2029 || n == 0x202F || n == 0x205F || n == 0x3000
}

/// The characters of `s`, in order.
pub fn chars_of(s: &str) -> (v: Vec<char>)
    ensures
        v@ == s@,
{
    let mut v: Vec<char> = Vec::new();
    for c in it: s.chars()
        invariant
            it.seq() == s@,
            v@ == it.seq().take(it.index()),
    {
        proof {
            assert(it.seq().take(it.index() + 1) =~= it.seq().take(it.index()).push(c));
        }
        v.push(c);
    }
    proof {
        assert(s@.take(s@.len() as int) =~= s@);
    }
    v
}

/// The string made of the characters of `v`.
pub fn string_of(v: &Vec<char>) -> (s: String)
    ensures
        s@ == v@,
{
    let mut s = String::new();
    let mut i: usize = 0;
    while i < v.len()
        invariant
            i <= v.len(),
            s@ == v@.take(i as int),
        decreases v.len() - i,
    {
        proof {
            assert(v@.take(i + 1) =~= v@.take(i as int).push(v@[i as int]));
        }
        s.push(v[i]);
        i += 1;
    }
    proof {
        assert(v@.take(v@.len() as int) =~= v@);
    }
    s
}

/// The part of `v` from `from` up to `to`.
pub fn copy_range(v: &Vec<char>, from: usize, to: usize) -> (r: Vec<char>)
    requires
        from <= to <= v.len(),
    ensures
        r@ == v@.subrange(from as int, to as int),
{
    let mut r: Vec<char> = Vec::new();
    let mut i: usize = from;
    while i < to
        invariant
            from <= i <= to <= v.len(),
            r@ == v@.subrange(from as int, i as int),
        decreases to - i,
    {
        proof {
            assert(v@.subrange(from as int, i + 1) =~= v@.subrange(from as int, i as int).push(
                v@[i as int],
            ));
        }
        r.push(v[i]);
        i += 1;
    }
    r
}

/// Appends the characters of `tail` to `v`.
pub fn append_chars(v: &mut Vec<char>, tail: &Vec<char>)
    ensures
        final(v)@ == old(v)@ + tail@,
{
    let mut i: usize = 0;
    while i < tail.len()
        invariant
            i <= tail.len(),
            v@ == old(v)@ + tail@.take(i as int),
        decreases tail.len() - i,
    {
        proof {
            assert(tail@.take(i + 1) =~= tail@.take(i as int).push(tail@[i as int]));
            assert((old(v)@ + tail@.take(i as int)).push(tail@[i as int]) =~= old(v)@
                + tail@.take(i + 1));
        }
        v.push(tail[i]);
        i += 1;
    }
    proof {
        assert(tail@.take(tail@.len() as int) =~= tail@);
    }
}

/// Whether the two texts hold the same characters.
pub fn same_text(a: &Vec<char>, b: &Vec<char>) -> (r: bool)
    ensures
        r == (a@ == b@),
{
    if a.len() != b.len() {
        return false;
    }
    let mut i: usize = 0;
    while i < a.len()
        invariant
            i <= a.len(),
            a.len() == b.len(),
            a@.take(i as int) == b@.take(i as int),
        decreases a.len() - i,
    {
        if a[i] != b[i] {
            return false;
        }
        proof {
            assert(a@.take(i + 1) =~= a@.take(i as int).push(a@[i as int]));
            assert(b@.take(i + 1) =~= b@.take(i as int).push(b@[i as int]));
        }
        i += 1;
    }
    proof {
        assert(a@.take(a@.len() as int) =~= a@);
        assert(b@.take(b@.len() as int) =~= b@);
    }
    true
}

/// Whether `v` begins with `p`.
pub fn has_prefix(v: &Vec<char>, p: &Vec<char>) -> (r: bool)
    ensures
        r == starts_with(v@, p@),
{
    if p.len() > v.len() {
        return false;
    }
    let head = copy_range(v, 0, p.len());
    same_text(&head, p)
}

/// Whether `v` ends with `p`.
pub fn has_suffix(v: &Vec<char>, p: &Vec<char>) -> (r: bool)
    ensures
        r == ends_with(v@, p@),
{
    if p.len() > v.len() {
        return false;
    }
    let tail = copy_range(v, v.len() - p.len(), v.len());
    same_text(&tail, p)
}

/// `v` without the white space at either end.
pub fn trim_chars(v: &Vec<char>) -> (r: Vec<char>)
    ensures
        r@ == trim(v@),
{
    let mut a: usize = 0;
    while a < v.len() && char_is_space(v[a])
        invariant
            a <= v.len(),
            forall|i: int| 0 <= i < a ==> is_space(v@[i]),
        decreases v.len() - a,
    {
        a += 1;
    }
    let mut b: usize = v.len();
    while b > a && char_is_space(v[b - 1])
        invariant
            a <= b <= v.len(),
            forall|i: int| b <= i < v.len() ==> is_space(v@[i]),
        decreases b,
    {
        b -= 1;
    }
    proof {
        lemma_trim_is(v@, a as int, b as int);
    }
    copy_range(v, a, b)
}

/// The lines of `v`.
pub fn split_lines(v: &Vec<char>) -> (r: Vec<Vec<char>>)
    ensures
        line_views(r@) == lines(v@),
{
    let mut r: Vec<Vec<char>> = Vec::new();
    let mut start: usize = 0;
    let mut i: usize = 0;
    proof {
        assert(v@.skip(0) =~= v@);
        assert(line_views(r@) + lines(v@) =~= lines(v@));
    }
    while i < v.len()
        invariant
            start <= i <= v.len(),
            forall|k: int| start <= k < i ==> v@[k] != '\n',
            line_views(r@) + lines(v@.skip(start as int)) == lines(v@),
        decreases v.len() - i,
    {
        if v[i] == '\n' {
            let line = copy_range(v, start, i);
            proof {
                let rest = v@.skip(start as int);
                assert forall|k: int| 0 <= k < i - start implies rest[k] != '\n' by {
                    assert(rest[k] == v@[k + start]);
                }
                lemma_line_len(rest, i - start);
                assert(rest.take(i - start) =~= line@);
                assert(rest.skip(i - start + 1) =~= v@.skip(i + 1));
                assert(line_views(r@.push(line)) =~= line_views(r@) + seq![line@]);
            }
            r.push(line);
            start = i + 1;
        }
        i += 1;
    }
    let line = copy_range(v, start, v.len());
    proof {
        let rest = v@.skip(start as int);
        assert forall|k: int| 0 <= k < rest.len() implies rest[k] != '\n' by {
            assert(rest[k] == v@[k + start]);
        }
        lemma_line_len(rest, rest.len() as int);
        assert(rest =~= line@);
        assert(line_views(r@.push(line)) =~= line_views(r@) + seq![line@]);
    }
    r.push(line);
    r
}

/// The texts of `ls` from `from` up to `to`, with a line feed between each two.
pub fn join_range(ls: &Vec<Vec<char>>, from: usize, to: usize) -> (r: Vec<char>)
    requires
        from <= to <= ls.len(),
    ensures
        r@ == join(line_views(ls@).subrange(from as int, to as int)),
{
    let mut r: Vec<char> = Vec::new();
    let mut i: usize = from;
    while i < to
        invariant
            from <= i <= to <= ls.len(),
            r@ == join(line_views(ls@).subrange(from as int, i as int)),
        decreases to - i,
    {
        proof {
            let all = line_views(ls@);
            let done = all.subrange(from as int, i as int);
            assert(all.subrange(from as int, i + 1) =~= done + seq![ls@[i as int]@]);
            if i > from {
                lemma_join_concat(done, seq![ls@[i as int]@]);
            }
        }
        if i > from {
            r.push('\n');
        }
        append_chars(&mut r, &ls[i]);
        i += 1;
    }
    r
}

/// The texts of `ls` with a line feed between each two.
pub fn join_lines(ls: &Vec<Vec<char>>) -> (r: Vec<char>)
    ensures
        r@ == join(line_views(ls@)),
{
    proof {
        let all = line_views(ls@);
        assert(all.subrange(0, all.len() as int) =~= all);
    }
    join_range(ls, 0, ls.len())
}

/// Whether `v` holds no line feed.
pub fn is_single_line(v: &Vec<char>) -> (r: bool)
    ensures
        r == is_line(v@),
{
    let mut i: usize = 0;
    while i < v.len()
        invariant
            i <= v.len(),
            forall|k: int| 0 <= k < i ==> v@[k] != '\n',
        decreases v.len() - i,
    {
        if v[i] == '\n' {
            return false;
        }
        i += 1;
    }
    true
}

/// Whether `v` holds nothing but white space.
pub fn is_blank_line(v: &Vec<char>) -> (r: bool)
    ensures
        r == is_blank(v@),
{
    trim_chars(v).len() == 0
}

} // verus!
