//! A session: a sequence of marks, never empty, and the rules by which it changes.
//!
//! A session is active until its last mark carries `Stop`. The time of a
//! session is the sum of the intervals between successive marks, an interval
//! being left out where the mark that begins it carries `Skip`; an active
//! session also counts from its last mark up to now.

use crate::config::{join_path, Config};
use crate::date_time::DateTime;
use crate::label::{insert_tag, lemma_insert_tag, lemma_remove_tag, remove_tag, Attribute, Tag};
use crate::mark::{plain_mark, Mark, MarkView};
use crate::text::{append_chars, chars_of, string_of};
use vstd::prelude::*;

verus! {

/// Why a session refused a change.
#[derive(Clone, Copy, Debug, PartialEq, Eq, Structural)]
pub enum StateError {
    /// The session has ended: its last mark carries `Stop`.
    Ended,
    /// The last mark has notes already.
    NotEmpty,
}

impl StateError {
    /// What the error says.
    pub open spec fn text(self) -> Seq<char> {
        match self {
            StateError::Ended => "session already ended"@,
            StateError::NotEmpty => "current mark already contains some text"@,
        }
    }

    /// What the error says.
    pub fn message(&self) -> (r: String)
        ensures
            r@ == self.text(),
    {
        match self {
            StateError::Ended => string_of(&chars_of("session already ended")),
            StateError::NotEmpty => string_of(&chars_of("current mark already contains some text")),
        }
    }
}

/// What a session is: the model that contracts speak of.
pub struct SessionView {
    pub path: Seq<char>,
    pub marks: Seq<MarkView>,
}

/// A sequence of marks and the place where its document is kept.
#[derive(Clone, Debug, PartialEq, Eq)]
pub struct Session {
    /// Where the document of the session is kept. The session does not read it.
    pub path: String,
    /// The marks, in the order in which they were made. Never empty.
    pub marks: Vec<Mark>,
}

/// What each of the marks is.
pub open spec fn mark_views(v: Seq<Mark>) -> Seq<MarkView> {
    Seq::new(v.len(), |i: int| v[i]@)
}

impl View for Session {
    type V = SessionView;

    open spec fn view(&self) -> SessionView {
        SessionView { path: self.path@, marks: mark_views(self.marks@) }
    }
}

/// The milliseconds counted between the marks: for each mark but the last, the
/// time up to the next mark, unless the mark carries `Skip`.
pub open spec fn elapsed_between(marks: Seq<MarkView>) -> int
    decreases marks.len(),
{
    if marks.len() <= 1 {
        0
    } else {
        elapsed_between(marks.drop_last()) + interval(marks, marks.len() - 2)
    }
}

/// The milliseconds that the interval from mark `i` to the next mark adds.
pub open spec fn interval(marks: Seq<MarkView>, i: int) -> int {
    if marks[i].attribute != Attribute::Skip {
        marks[i + 1].date.millis - marks[i].date.millis
    } else {
        0
    }
}

/// The milliseconds counted from the last mark up to `now`: none where the
/// last mark carries `Stop` or `Skip`.
pub open spec fn running(marks: Seq<MarkView>, now: DateTime) -> int {
    if marks.last().attribute == Attribute::Nothing {
        now.millis - marks.last().date.millis
    } else {
        0
    }
}

/// The time of a session at the instant `now`, in milliseconds.
pub open spec fn elapsed(marks: Seq<MarkView>, now: DateTime) -> int {
    elapsed_between(marks) + running(marks, now)
}

/// The time of the session at `now`, where it can be taken.
pub open spec fn time_at(session: SessionView, now: DateTime) -> Option<u64> {
    if session.timed(now) {
        Some(elapsed(session.marks, now) as u64)
    } else {
        None
    }
}

/// The interval from mark `i` to the next mark does not run backwards, or is not counted.
pub open spec fn runs_forward(marks: Seq<MarkView>, i: int) -> bool {
    marks[i].attribute != Attribute::Skip ==> marks[i].date.millis <= marks[i + 1].date.millis
}

/// No interval that is counted runs backwards.
pub open spec fn ordered(marks: Seq<MarkView>) -> bool {
    forall|i: int| 0 <= i < marks.len() - 1 ==> #[trigger] runs_forward(marks, i)
}

impl SessionView {
    /// There is a mark, and every mark is well formed.
    pub open spec fn wf(self) -> bool {
        &&& self.marks.len() >= 1
        &&& forall|i: int| 0 <= i < self.marks.len() ==> (#[trigger] self.marks[i]).wf()
    }

    /// The last mark does not carry `Stop`.
    pub open spec fn is_active(self) -> bool {
        self.marks.last().attribute != Attribute::Stop
    }

    /// The session with `mark` in the place of its last mark.
    pub open spec fn with_last(self, mark: MarkView) -> SessionView {
        SessionView { marks: self.marks.update(self.marks.len() - 1, mark), ..self }
    }

    /// The session with `mark` after its last mark.
    pub open spec fn with_more(self, mark: MarkView) -> SessionView {
        SessionView { marks: self.marks.push(mark), ..self }
    }

    /// What `mark` does: an active session gets a plain mark at `date`.
    pub open spec fn marked(self, date: DateTime) -> Result<SessionView, StateError> {
        if self.is_active() {
            Ok(self.with_more(plain_mark(date)))
        } else {
            Err(StateError::Ended)
        }
    }

    /// What `stop` does: an active session gets a mark at `date` that carries `Stop`.
    pub open spec fn stopped(self, date: DateTime) -> Result<SessionView, StateError> {
        if self.is_active() {
            Ok(self.with_more(MarkView { attribute: Attribute::Stop, ..plain_mark(date) }))
        } else {
            Err(StateError::Ended)
        }
    }

    /// What `remark` does: the last mark gets the date `date`, cut to the whole second.
    pub open spec fn remarked(self, date: DateTime) -> SessionView {
        self.with_last(MarkView { date: date.whole(), ..self.marks.last() })
    }

    /// What `unmark` does: the last mark leaves, unless it is the only one.
    pub open spec fn unmarked(self) -> SessionView {
        if self.marks.len() > 1 {
            SessionView { marks: self.marks.drop_last(), ..self }
        } else {
            self
        }
    }

    /// What `skip` does: the last mark carries `Skip`, whatever it carried.
    pub open spec fn skipped(self) -> SessionView {
        self.with_last(MarkView { attribute: Attribute::Skip, ..self.marks.last() })
    }

    /// What `tag` does: the last mark has `tag` among its tags.
    pub open spec fn tagged(self, tag: Seq<char>) -> SessionView {
        self.with_last(
            MarkView { tags: insert_tag(self.marks.last().tags, tag), ..self.marks.last() },
        )
    }

    /// What `untag` does: the last mark has no `tag` among its tags.
    pub open spec fn untagged(self, tag: Seq<char>) -> SessionView {
        self.with_last(
            MarkView { tags: remove_tag(self.marks.last().tags, tag), ..self.marks.last() },
        )
    }

    /// What `write` does: a last mark without notes gets the notes `text`.
    pub open spec fn written(self, text: Seq<char>) -> Result<SessionView, StateError> {
        if self.marks.last().contents.len() == 0 {
            Ok(self.with_last(MarkView { contents: text, ..self.marks.last() }))
        } else {
            Err(StateError::NotEmpty)
        }
    }

    /// What `erase` does: the last mark has no notes.
    pub open spec fn erased(self) -> SessionView {
        self.with_last(MarkView { contents: Seq::empty(), ..self.marks.last() })
    }

    /// The time of the session can be taken at `now`: no counted interval
    /// runs backwards, `now` is not before a last mark that is still counting,
    /// and the sum fits in 64 bits.
    pub open spec fn timed(self, now: DateTime) -> bool {
        &&& ordered(self.marks)
        &&& running(self.marks, now) >= 0
        &&& elapsed(self.marks, now) <= u64::MAX
    }
}

impl Session {
    /// There is a mark, and every mark is well formed.
    pub open spec fn wf(&self) -> bool {
        self@.wf()
    }

    /// Whether the session is well formed.
    pub fn is_wf(&self) -> (r: bool)
        ensures
            r == self.wf(),
    {
        if self.marks.len() == 0 {
            return false;
        }
        let mut i: usize = 0;
        while i < self.marks.len()
            invariant
                i <= self.marks.len(),
                forall|k: int| 0 <= k < i ==> (#[trigger] self@.marks[k]).wf(),
            decreases self.marks.len() - i,
        {
            if !self.marks[i].is_wf() {
                proof {
                    assert(!self@.marks[i as int].wf());
                }
                return false;
            }
            i += 1;
        }
        true
    }

    /// A session that starts at `dt`: one plain mark. Its document is the file
    /// named by `document_name`, in the configured directory.
    pub fn new(config: &Config, dt: &DateTime) -> (r: Session)
        requires
            dt.wf(),
        ensures
            r@.marks == seq![plain_mark(*dt)],
            r.wf(),
            r@.is_active(),
    {
        let name = Session::document_name(dt);
        let path = join_path(config.sessions_path.as_str(), name.as_str());
        Session::at_path(path, dt)
    }

    /// The name of the document of a session that starts at `dt`: the
    /// canonical text of `dt` and `.md`.
    pub fn document_name(dt: &DateTime) -> (r: String)
        requires
            dt.wf(),
        ensures
            r@ == dt.canonical_text() + ".md"@,
    {
        let mut name = chars_of(dt.to_formatted().as_str());
        append_chars(&mut name, &chars_of(".md"));
        string_of(&name)
    }

    /// A session that starts at `dt`, with its document kept at `path`: one plain mark.
    pub fn at_path(path: String, dt: &DateTime) -> (r: Session)
        requires
            dt.wf(),
        ensures
            r@ == (SessionView { path: path@, marks: seq![plain_mark(*dt)] }),
            r.wf(),
            r@.is_active(),
    {
        let mut marks: Vec<Mark> = Vec::new();
        marks.push(Mark::new(dt));
        let r = Session { path, marks };
        proof {
            assert(r@.marks =~= seq![plain_mark(*dt)]);
        }
        r
    }

    /// A session with the marks `marks`, if there is one at least.
    pub fn from_marks(path: &str, marks: Vec<Mark>) -> (r: Option<Session>)
        ensures
            r is Some <==> marks.len() > 0,
            r matches Some(s) ==> s@ == (SessionView { path: path@, marks: mark_views(marks@) }),
    {
        if marks.len() == 0 {
            None
        } else {
            Some(Session { path: path.to_owned(), marks })
        }
    }

    /// The date of the first mark: when the session started.
    pub fn start(&self) -> (r: DateTime)
        requires
            self.wf(),
        ensures
            r == self@.marks.first().date,
    {
        self.marks[0].date
    }

    /// The date of the last mark.
    pub fn end(&self) -> (r: DateTime)
        requires
            self.wf(),
        ensures
            r == self@.marks.last().date,
    {
        self.marks[self.marks.len() - 1].date
    }

    /// Whether the session has not ended.
    pub fn is_active(&self) -> (r: bool)
        requires
            self.wf(),
        ensures
            r == self@.is_active(),
    {
        self.marks[self.marks.len() - 1].attribute != Attribute::Stop
    }

    /// Takes the last mark out, for a change to it.
    fn take_last(&mut self) -> (last: Mark)
        requires
            old(self).wf(),
        ensures
            last@ == old(self)@.marks.last(),
            final(self).path == old(self).path,
            final(self).marks@ == old(self).marks@.drop_last(),
    {
        self.marks.pop().unwrap()
    }

    /// Puts a mark in the place that `take_last` left.
    fn put_last(&mut self, last: Mark, Ghost(before): Ghost<SessionView>)
        requires
            before.wf(),
            old(self)@.path == before.path,
            mark_views(old(self).marks@) == before.marks.drop_last(),
            last.wf(),
        ensures
            final(self)@ == before.with_last(last@),
            final(self).wf(),
    {
        self.marks.push(last);
        proof {
            let now = self@.marks;
            let model = before.with_last(last@).marks;
            assert(mark_views(old(self).marks@).len() == before.marks.drop_last().len());
            assert(now.len() == model.len());
            assert forall|i: int| 0 <= i < now.len() implies now[i] == model[i] by {
                if i < now.len() - 1 {
                    assert(now[i] == mark_views(old(self).marks@)[i]);
                    assert(before.marks.drop_last()[i] == before.marks[i]);
                }
            }
            assert(now =~= model);
            assert forall|i: int| 0 <= i < now.len() implies (#[trigger] now[i]).wf() by {
                if i < now.len() - 1 {
                    assert(before.marks[i].wf());
                }
            }
        }
    }

    /// Appends a mark.
    fn put_more(&mut self, mark: Mark)
        requires
            old(self).wf(),
            mark.wf(),
        ensures
            final(self)@ == old(self)@.with_more(mark@),
            final(self).wf(),
    {
        self.marks.push(mark);
        proof {
            assert(self@.marks =~= old(self)@.with_more(mark@).marks);
        }
    }

    /// Ends the session with a mark at `dt` that carries `Stop`. A session that
    /// has ended is left as it is.
    pub fn stop(&mut self, dt: &DateTime) -> (r: Result<(), StateError>)
        requires
            old(self).wf(),
            dt.wf(),
        ensures
            final(self).wf(),
            match old(self)@.stopped(*dt) {
                Ok(after) => r is Ok && final(self)@ == after,
                Err(e) => r == Err::<(), StateError>(e) && final(self)@ == old(self)@,
            },
    {
        if !self.is_active() {
            return Err(StateError::Ended);
        }
        let mut mark = Mark::new(dt);
        mark.attribute = Attribute::Stop;
        self.put_more(mark);
        Ok(())
    }

    /// Makes the last mark carry `Skip`, whatever it carried.
    pub fn skip(&mut self)
        requires
            old(self).wf(),
        ensures
            final(self).wf(),
            final(self)@ == old(self)@.skipped(),
    {
        let ghost before = self@;
        let mut last = self.take_last();
        proof {
            assert(mark_views(self.marks@) =~= before.marks.drop_last());
        }
        last.attribute = Attribute::Skip;
        self.put_last(last, Ghost(before));
    }

    /// Appends a plain mark at `dt`. A session that has ended is left as it is.
    pub fn mark(&mut self, dt: &DateTime) -> (r: Result<(), StateError>)
        requires
            old(self).wf(),
            dt.wf(),
        ensures
            final(self).wf(),
            match old(self)@.marked(*dt) {
                Ok(after) => r is Ok && final(self)@ == after,
                Err(e) => r == Err::<(), StateError>(e) && final(self)@ == old(self)@,
            },
    {
        if !self.is_active() {
            return Err(StateError::Ended);
        }
        self.put_more(Mark::new(dt));
        Ok(())
    }

    /// Sets the date of the last mark to `dt`.
    pub fn remark(&mut self, dt: &DateTime)
        requires
            old(self).wf(),
            dt.wf(),
        ensures
            final(self).wf(),
            final(self)@ == old(self)@.remarked(*dt),
    {
        let ghost before = self@;
        let mut last = self.take_last();
        proof {
            assert(mark_views(self.marks@) =~= before.marks.drop_last());
        }
        last.date = dt.truncated();
        self.put_last(last, Ghost(before));
    }

    /// Removes the last mark and gives it back, unless it is the only mark:
    /// then nothing changes and nothing is given.
    pub fn unmark(&mut self) -> (r: Option<Mark>)
        requires
            old(self).wf(),
        ensures
            final(self).wf(),
            final(self)@ == old(self)@.unmarked(),
            old(self)@.marks.len() == 1 ==> r is None,
            old(self)@.marks.len() > 1 ==> r is Some && r->0@ == old(self)@.marks.last(),
    {
        if self.marks.len() > 1 {
            let mark = self.marks.pop();
            proof {
                assert(self@.marks =~= old(self)@.marks.drop_last());
            }
            mark
        } else {
            None
        }
    }

    /// Adds `tag` to the last mark; tells whether it was not there before.
    pub fn tag(&mut self, tag: &Tag) -> (added: bool)
        requires
            old(self).wf(),
            tag.wf(),
        ensures
            final(self).wf(),
            final(self)@ == old(self)@.tagged(tag@),
            added == !old(self)@.marks.last().tags.contains(tag@),
    {
        let ghost before = self@;
        let mut last = self.take_last();
        proof {
            assert(mark_views(self.marks@) =~= before.marks.drop_last());
        }
        let added = last.tag(tag);
        self.put_last(last, Ghost(before));
        added
    }

    /// Takes `tag` from the last mark; tells whether it was there.
    pub fn untag(&mut self, tag: &Tag) -> (removed: bool)
        requires
            old(self).wf(),
        ensures
            final(self).wf(),
            final(self)@ == old(self)@.untagged(tag@),
            removed == old(self)@.marks.last().tags.contains(tag@),
    {
        let ghost before = self@;
        let mut last = self.take_last();
        proof {
            assert(mark_views(self.marks@) =~= before.marks.drop_last());
        }
        let removed = last.untag(tag);
        self.put_last(last, Ghost(before));
        removed
    }

    /// Gives the last mark the notes `text`, if it has none. Otherwise nothing changes.
    pub fn write(&mut self, text: &str) -> (r: Result<(), StateError>)
        requires
            old(self).wf(),
        ensures
            final(self).wf(),
            match old(self)@.written(text@) {
                Ok(after) => r is Ok && final(self)@ == after,
                Err(e) => r == Err::<(), StateError>(e) && final(self)@ == old(self)@,
            },
    {
        if !self.marks[self.marks.len() - 1].contents.as_str().is_empty() {
            return Err(StateError::NotEmpty);
        }
        let ghost before = self@;
        let mut last = self.take_last();
        proof {
            assert(mark_views(self.marks@) =~= before.marks.drop_last());
        }
        last.write(text);
        self.put_last(last, Ghost(before));
        Ok(())
    }

    /// Removes the notes of the last mark.
    pub fn erase(&mut self)
        requires
            old(self).wf(),
        ensures
            final(self).wf(),
            final(self)@ == old(self)@.erased(),
    {
        let ghost before = self@;
        let mut last = self.take_last();
        proof {
            assert(mark_views(self.marks@) =~= before.marks.drop_last());
        }
        last.erase();
        self.put_last(last, Ghost(before));
    }

    /// The time of the session at `now` in milliseconds, if it can be taken.
    pub fn checked_time_at(&self, now: &DateTime) -> (r: Option<u64>)
        requires
            self.wf(),
            now.wf(),
        ensures
            r == time_at(self@, *now),
            r is Some ==> elapsed(self@.marks, *now) >= 0,
    {
        let ghost marks = self@.marks;
        let mut sum: u128 = 0;
        let mut i: usize = 1;
        proof {
            assert(marks.take(1).len() == 1);
        }
        while i < self.marks.len()
            invariant
                1 <= i <= self.marks.len(),
                marks == self@.marks,
                self.wf(),
                ordered(marks.take(i as int)),
                sum == elapsed_between(marks.take(i as int)),
                sum <= (i - 1) * 315_569_519_999_999,
            decreases self.marks.len() - i,
        {
            let before = &self.marks[i - 1];
            let after = &self.marks[i];
            let ghost next = marks.take(i + 1);
            proof {
                assert(marks[i - 1] == before@ && marks[i as int] == after@);
                assert(marks[i - 1].wf() && marks[i as int].wf());
                assert(next.drop_last() =~= marks.take(i as int));
                assert(next[i - 1] == marks[i - 1] && next[i as int] == marks[i as int]);
            }
            if before.attribute != Attribute::Skip {
                if before.date.millis > after.date.millis {
                    proof {
                        assert(!runs_forward(marks, i - 1));
                    }
                    return None;
                }
                sum = sum + (after.date.millis - before.date.millis) as u128;
            }
            proof {
                assert forall|k: int| 0 <= k < next.len() - 1 implies #[trigger] runs_forward(
                    next,
                    k,
                ) by {
                    if k < i - 1 {
                        assert(runs_forward(marks.take(i as int), k));
                        assert(marks.take(i as int)[k] == next[k]);
                        assert(marks.take(i as int)[k + 1] == next[k + 1]);
                    }
                }
            }
            i += 1;
        }
        proof {
            assert(marks.take(marks.len() as int) =~= marks);
        }
        let last = &self.marks[self.marks.len() - 1];
        proof {
            assert(marks.last() == last@);
            assert(marks[marks.len() - 1].wf());
        }
        if last.attribute == Attribute::Nothing {
            if last.date.millis > now.millis {
                return None;
            }
            sum = sum + (now.millis - last.date.millis) as u128;
        }
        if sum > u64::MAX as u128 {
            None
        } else {
            Some(sum as u64)
        }
    }

    /// The time of the session at `now`, in milliseconds.
    pub fn get_time_at(&self, now: &DateTime) -> (r: u64)
        requires
            self.wf(),
            now.wf(),
            self@.timed(*now),
        ensures
            r == elapsed(self@.marks, *now),
            !self@.is_active() ==> r == elapsed_between(self@.marks),
    {
        self.checked_time_at(now).unwrap()
    }

    /// The time of the session up to now, in milliseconds: `None` where a
    /// counted interval runs backwards, the last mark lies ahead of the clock,
    /// or the sum does not fit in 64 bits.
    pub fn get_time(&self) -> (r: Option<u64>)
        requires
            self.wf(),
        ensures
            exists|now: DateTime|
                now.wf() && now.whole_second() && r == #[trigger] time_at(self@, now),
            self@.marks.last().attribute != Attribute::Nothing ==> r == if ordered(self@.marks)
                && elapsed_between(self@.marks) <= u64::MAX {
                Some(elapsed_between(self@.marks) as u64)
            } else {
                None
            },
    {
        let now = DateTime::now();
        self.checked_time_at(&now)
    }
}

/// Making a mark carry `Skip` takes from the time of the session what the
/// interval that begins at that mark added, and nothing else: the interval
/// that ends at the mark counts as before.
pub proof fn lemma_skip_suppresses_forward_interval(marks: Seq<MarkView>, k: int)
    requires
        0 <= k < marks.len() - 1,
    ensures
        elapsed_between(marks.update(k, MarkView { attribute: Attribute::Skip, ..marks[k] }))
            == elapsed_between(marks) - interval(marks, k),
    decreases marks.len(),
{
    let skipped = MarkView { attribute: Attribute::Skip, ..marks[k] };
    let after = marks.update(k, skipped);
    if k == marks.len() - 2 {
        assert(after.drop_last().drop_last() =~= marks.drop_last().drop_last());
        lemma_elapsed_ignores_last_attribute(marks.drop_last(), skipped);
        assert(after.drop_last() =~= marks.drop_last().update(k, skipped));
    } else {
        assert(after.drop_last() =~= marks.drop_last().update(k, skipped));
        lemma_skip_suppresses_forward_interval(marks.drop_last(), k);
        assert(interval(marks.drop_last(), k) == interval(marks, k));
    }
}

/// What the last mark carries has no part in the time between the marks,
/// nor has anything else of the last mark but its date.
pub proof fn lemma_elapsed_ignores_last_attribute(marks: Seq<MarkView>, last: MarkView)
    requires
        marks.len() >= 1,
        last.date == marks.last().date,
    ensures
        elapsed_between(marks.update(marks.len() - 1, last)) == elapsed_between(marks),
{
    let after = marks.update(marks.len() - 1, last);
    if marks.len() > 1 {
        assert(after.drop_last() =~= marks.drop_last());
    }
}

/// On a last mark, `Skip` takes from the time of the session what ran from
/// that mark up to now.
pub proof fn lemma_skip_suppresses_running_time(session: SessionView, now: DateTime)
    requires
        session.marks.len() >= 1,
    ensures
        elapsed(session.skipped().marks, now) == elapsed(session.marks, now) - running(
            session.marks,
            now,
        ),
{
    lemma_elapsed_ignores_last_attribute(
        session.marks,
        MarkView { attribute: Attribute::Skip, ..session.marks.last() },
    );
}

/// The time of a session that has ended is the same at every instant.
pub proof fn lemma_ended_session_stops_counting(
    session: SessionView,
    now: DateTime,
    later: DateTime,
)
    requires
        session.marks.len() >= 1,
        !session.is_active(),
    ensures
        elapsed(session.marks, now) == elapsed(session.marks, later),
        elapsed(session.marks, now) == elapsed_between(session.marks),
{
}

/// After `erase`, `write` succeeds, and gives the last mark the notes written.
pub proof fn lemma_write_after_erase(session: SessionView, text: Seq<char>)
    requires
        session.marks.len() >= 1,
    ensures
        session.erased().written(text) is Ok,
        session.erased().written(text)->Ok_0.marks.last().contents == text,
        session.erased().written(text)->Ok_0.marks.drop_last() == session.marks.drop_last(),
{
    assert(session.erased().written(text)->Ok_0.marks.drop_last() =~= session.marks.drop_last());
}

/// `write` on a last mark that has notes changes nothing.
pub proof fn lemma_write_keeps_notes(session: SessionView, text: Seq<char>)
    requires
        session.marks.len() >= 1,
        session.marks.last().contents.len() > 0,
    ensures
        session.written(text) == Err::<SessionView, StateError>(StateError::NotEmpty),
{
}

/// A tag added twice is there once: the second `tag` finds it and changes nothing.
pub proof fn lemma_tag_twice(session: SessionView, tag: Seq<char>)
    requires
        session.wf(),
    ensures
        session.tagged(tag).marks.last().tags.contains(tag),
        session.tagged(tag).tagged(tag) == session.tagged(tag),
        session.tagged(tag).marks.last().tags.len() == session.marks.last().tags.len() + (
        if session.marks.last().tags.contains(tag) {
            0int
        } else {
            1int
        }),
{
    let tags = session.marks.last().tags;
    assert(session.marks[session.marks.len() - 1].wf());
    lemma_insert_tag(tags, tag);
    lemma_insert_tag(insert_tag(tags, tag), tag);
    let once = session.tagged(tag);
    assert(once.tagged(tag).marks =~= once.marks);
}

/// `untag` of a tag that is not there changes nothing.
pub proof fn lemma_untag_absent(session: SessionView, tag: Seq<char>)
    requires
        session.wf(),
        !session.marks.last().tags.contains(tag),
    ensures
        session.untagged(tag) == session,
{
    assert(session.marks[session.marks.len() - 1].wf());
    lemma_remove_tag(session.marks.last().tags, tag);
    assert(session.untagged(tag).marks =~= session.marks);
}

/// `unmark` leaves a session of one mark as it is, and takes the last mark
/// alone from a longer one.
pub proof fn lemma_unmark_keeps_first(session: SessionView)
    requires
        session.marks.len() >= 1,
    ensures
        session.unmarked().marks.len() >= 1,
        session.unmarked().marks.first() == session.marks.first(),
        session.marks.len() == 1 ==> session.unmarked() == session,
        session.marks.len() > 1 ==> session.unmarked().marks == session.marks.drop_last(),
{
}

} // verus!
