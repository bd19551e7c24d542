//! Figures over the sessions that are known: the time of the last session and
//! the time of its week.
//!
//! The week is that of the start of the last session, from Monday 00:00:00
//! local time. A session counts for the week with all of its time if it
//! started in the week, and not at all otherwise.

use crate::date_time::{time_hr, DateTime};
use crate::document::decode_text;
use crate::mark::DecodeError;
use crate::session::{elapsed, Session, SessionView};
use crate::text::{append_chars, chars_of, string_of};
use vstd::prelude::*;

verus! {

/// What each of the sessions is.
pub open spec fn session_views(v: Seq<Session>) -> Seq<SessionView> {
    Seq::new(v.len(), |i: int| v[i]@)
}

/// The session started at `since` or later.
pub open spec fn in_week(session: SessionView, since: int) -> bool {
    session.marks.first().date.millis >= since
}

/// The time that the session adds to the week that began at `since`.
pub open spec fn counted_time(session: SessionView, since: int, now: DateTime) -> int {
    if in_week(session, since) {
        elapsed(session.marks, now)
    } else {
        0
    }
}

/// The time of the sessions that started at `since` or later, at the instant `now`.
pub open spec fn time_since(sessions: Seq<SessionView>, since: int, now: DateTime) -> int
    decreases sessions.len(),
{
    if sessions.len() == 0 {
        0
    } else {
        time_since(sessions.drop_last(), since, now) + counted_time(sessions.last(), since, now)
    }
}

/// The time of every session that started at `since` or later can be taken at `now`.
pub open spec fn all_timed(sessions: Seq<SessionView>, since: int, now: DateTime) -> bool {
    forall|i: int|
        0 <= i < sessions.len() && in_week(#[trigger] sessions[i], since) ==> sessions[i].timed(
            now,
        )
}

/// An error in the first `n` documents is the error of them all.
pub proof fn lemma_first_error(docs: Seq<(Seq<char>, Seq<char>)>, n: int)
    requires
        0 <= n <= docs.len(),
        decode_all(docs.take(n)) is Err,
    ensures
        decode_all(docs) == decode_all(docs.take(n)),
    decreases docs.len() - n,
{
    if n == docs.len() {
        assert(docs.take(n) =~= docs);
    } else {
        assert(docs.drop_last().take(n) =~= docs.take(n));
        lemma_first_error(docs.drop_last(), n);
    }
}

/// The line that stands between the figures and the last mark in a view.
pub open spec fn separator() -> Seq<char> {
    "---------------------------------"@
}

/// What is said before the figures of a session that has ended.
pub open spec fn ended_notice() -> Seq<char> {
    "No active session, last session:\n"@
}

/// The figures of a summary, as texts.
pub struct SummaryView {
    pub active: bool,
    pub start: Seq<char>,
    pub week_time: Seq<char>,
    pub session_time: Seq<char>,
    pub last_mark_age: Seq<char>,
    pub last_mark_contents: Seq<char>,
}

impl SummaryView {
    /// The summary as lines for the reader.
    pub open spec fn text(self) -> Seq<char> {
        (if self.active {
            Seq::empty()
        } else {
            ended_notice()
        }) + "Start: "@ + self.start + "\nWeek: "@ + self.week_time + "\nTime: "@
            + self.session_time + "\nMark: "@ + self.last_mark_age + "\n"@ + separator() + "\n"@
            + self.last_mark_contents
    }
}

/// The figures of the last session and of its week.
#[derive(Clone, Debug, PartialEq, Eq)]
pub struct Summary {
    /// Whether the last session is active.
    pub active: bool,
    /// When the last session started.
    pub start: String,
    /// The time of the sessions of the week.
    pub week_time: String,
    /// The time of the last session.
    pub session_time: String,
    /// The time since the last mark of an active session; `0` for one that has ended.
    pub last_mark_age: String,
    /// The block of the last mark.
    pub last_mark_contents: String,
}

impl View for Summary {
    type V = SummaryView;

    open spec fn view(&self) -> SummaryView {
        SummaryView {
            active: self.active,
            start: self.start@,
            week_time: self.week_time@,
            session_time: self.session_time@,
            last_mark_age: self.last_mark_age@,
            last_mark_contents: self.last_mark_contents@,
        }
    }
}

/// Why no aggregator was made.
#[derive(Clone, Copy, Debug, PartialEq, Eq, Structural)]
pub enum AggregatorError {
    /// There is no session.
    Empty,
    /// A document is not that of a session.
    Document(DecodeError),
}

impl AggregatorError {
    /// What the error says.
    pub open spec fn text(self) -> Seq<char> {
        match self {
            AggregatorError::Empty => "session directory is empty"@,
            AggregatorError::Document(e) => e.text(),
        }
    }

    /// What the error says.
    pub fn message(&self) -> (r: String)
        ensures
            r@ == self.text(),
    {
        match self {
            AggregatorError::Empty => string_of(&chars_of("session directory is empty")),
            AggregatorError::Document(e) => e.message(),
        }
    }
}

/// What each document holds: its path and its text.
pub open spec fn document_views(docs: Seq<(String, String)>) -> Seq<(Seq<char>, Seq<char>)> {
    Seq::new(docs.len(), |i: int| (docs[i].0@, docs[i].1@))
}

/// The sessions that the documents write, each a path and a text, in their
/// order. The first document that is no session decides the error.
pub open spec fn decode_all(docs: Seq<(Seq<char>, Seq<char>)>) -> Result<
    Seq<SessionView>,
    DecodeError,
>
    decreases docs.len(),
{
    if docs.len() == 0 {
        Ok(Seq::empty())
    } else {
        match decode_all(docs.drop_last()) {
            Err(e) => Err(e),
            Ok(sessions) => match decode_text(docs.last().0, docs.last().1) {
                Err(e) => Err(e),
                Ok(session) => Ok(sessions.push(session)),
            },
        }
    }
}

/// The sessions that an aggregator is made of from documents: those that the
/// documents write, unless one of them is no session or there is none.
pub open spec fn sessions_of(docs: Seq<(Seq<char>, Seq<char>)>) -> Result<
    Seq<SessionView>,
    AggregatorError,
> {
    match decode_all(docs) {
        Err(e) => Err(AggregatorError::Document(e)),
        Ok(sessions) => if sessions.len() == 0 {
            Err(AggregatorError::Empty)
        } else {
            Ok(sessions)
        },
    }
}

/// The sessions that are known, oldest first.
#[derive(Clone, Debug, PartialEq, Eq)]
pub struct Aggregator {
    pub sessions: Vec<Session>,
}

/// The instant at which the week of the last session began.
pub open spec fn week_of(sessions: Seq<SessionView>) -> int {
    sessions.last().marks.first().date.week_start()
}

/// The summary can be made at `now`: the times that it adds up can be taken
/// and their sum fits in 64 bits, the last session is not a lone mark that
/// carries `Stop`, and `now` is not before the last mark of an active session.
pub open spec fn summarizable(sessions: Seq<SessionView>, now: DateTime) -> bool {
    let last = sessions.last();
    &&& all_timed(sessions, week_of(sessions), now)
    &&& time_since(sessions, week_of(sessions), now) <= u64::MAX
    &&& last.timed(now)
    &&& !(last.marks.len() == 1 && !last.is_active())
    &&& last.is_active() ==> last.marks.last().date.millis <= now.millis
}

/// The summary of the sessions at the instant `now`: the figures of the last
/// session and of its week, with the canonical texts of the dates.
pub open spec fn summary_of(sessions: Seq<SessionView>, now: DateTime) -> SummaryView {
    let last = sessions.last();
    summary_given(
        sessions,
        now,
        last.marks.first().date.canonical_text(),
        last.marks.last().date.canonical_text(),
    )
}

/// The summary of the sessions at the instant `now`, with `start` for the
/// text of the date at which the last session started and `last_date` for
/// the text of the date of its last mark.
pub open spec fn summary_given(
    sessions: Seq<SessionView>,
    now: DateTime,
    start: Seq<char>,
    last_date: Seq<char>,
) -> SummaryView {
    let last = sessions.last();
    SummaryView {
        active: last.is_active(),
        start,
        week_time: time_hr(time_since(sessions, week_of(sessions), now) as nat),
        session_time: time_hr(elapsed(last.marks, now) as nat),
        last_mark_age: if last.is_active() {
            time_hr((now.millis - last.marks.last().date.millis) as nat)
        } else {
            seq!['0']
        },
        last_mark_contents: last.marks.last().block(last_date),
    }
}

/// The summary of the sessions at the instant `now`, where it can be made.
pub open spec fn summary_at(sessions: Seq<SessionView>, now: DateTime) -> Option<SummaryView> {
    if summarizable(sessions, now) {
        Some(summary_of(sessions, now))
    } else {
        None
    }
}

/// What was made is what the model says is made.
pub open spec fn summary_agrees(r: Option<Summary>, model: Option<SummaryView>) -> bool {
    match r {
        Some(summary) => model == Some(summary@),
        None => model is None,
    }
}

/// The text that was made is that of the summary that the model says is made.
pub open spec fn view_agrees(r: Option<String>, model: Option<SummaryView>) -> bool {
    match r {
        Some(text) => model is Some && text@ == model->0.text(),
        None => model is None,
    }
}

impl Aggregator {
    /// What each of the sessions is.
    pub open spec fn model(&self) -> Seq<SessionView> {
        session_views(self.sessions@)
    }

    /// There is a session, and every session is well formed.
    pub open spec fn wf(&self) -> bool {
        &&& self.model().len() >= 1
        &&& forall|i: int| 0 <= i < self.model().len() ==> (#[trigger] self.model()[i]).wf()
    }

    /// Whether there is a session and every session is well formed.
    pub fn is_wf(&self) -> (r: bool)
        ensures
            r == self.wf(),
    {
        if self.sessions.len() == 0 {
            return false;
        }
        let mut i: usize = 0;
        while i < self.sessions.len()
            invariant
                i <= self.sessions.len(),
                forall|k: int| 0 <= k < i ==> (#[trigger] self.model()[k]).wf(),
            decreases self.sessions.len() - i,
        {
            if !self.sessions[i].is_wf() {
                proof {
                    assert(!self.model()[i as int].wf());
                }
                return false;
            }
            i += 1;
        }
        true
    }

    /// An aggregator over the sessions that the documents `docs` write, each a
    /// path and a text, oldest first.
    pub fn from_documents(docs: &Vec<(String, String)>) -> (r: Result<Aggregator, AggregatorError>)
        ensures
            match r {
                Ok(a) => sessions_of(document_views(docs@)) == Ok::<
                    Seq<SessionView>,
                    AggregatorError,
                >(a.model()) && a.wf(),
                Err(e) => sessions_of(document_views(docs@)) == Err::<
                    Seq<SessionView>,
                    AggregatorError,
                >(e),
            },
    {
        let ghost all = document_views(docs@);
        let mut sessions: Vec<Session> = Vec::new();
        let mut i: usize = 0;
        proof {
            assert(all.take(0) =~= Seq::<(Seq<char>, Seq<char>)>::empty());
            assert(session_views(sessions@) =~= Seq::<SessionView>::empty());
        }
        while i < docs.len()
            invariant
                i <= docs.len(),
                all == document_views(docs@),
                sessions.len() == i,
                decode_all(all.take(i as int)) == Ok::<Seq<SessionView>, DecodeError>(
                    session_views(sessions@),
                ),
                forall|k: int| 0 <= k < sessions.len() ==> (#[trigger] sessions@[k]).wf(),
            decreases docs.len() - i,
        {
            proof {
                let next = all.take(i + 1);
                assert(next.drop_last() =~= all.take(i as int));
                assert(next.last() == (docs@[i as int].0@, docs@[i as int].1@));
            }
            match Session::from_text(docs[i].0.as_str(), docs[i].1.as_str()) {
                Err(e) => {
                    proof {
                        lemma_first_error(all, i + 1);
                    }
                    return Err(AggregatorError::Document(e));
                },
                Ok(session) => {
                    proof {
                        assert(session_views(sessions@.push(session)) =~= session_views(
                            sessions@,
                        ).push(session@));
                    }
                    sessions.push(session);
                },
            }
            i += 1;
        }
        proof {
            assert(all.take(all.len() as int) =~= all);
        }
        if sessions.len() == 0 {
            Err(AggregatorError::Empty)
        } else {
            let a = Aggregator { sessions };
            proof {
                assert forall|k: int| 0 <= k < a.model().len() implies (#[trigger] a.model()[
                    k
                ]).wf() by {
                    assert(a.sessions@[k].wf());
                }
            }
            Ok(a)
        }
    }

    /// An aggregator over `sessions`, oldest first. An empty list is refused.
    pub fn from_sessions(sessions: Vec<Session>) -> (r: Result<Aggregator, AggregatorError>)
        ensures
            r is Ok <==> sessions.len() > 0,
            r matches Ok(a) ==> a.sessions == sessions,
            r matches Err(e) ==> e == AggregatorError::Empty,
    {
        if sessions.len() == 0 {
            Err(AggregatorError::Empty)
        } else {
            Ok(Aggregator { sessions })
        }
    }

    /// The time of the sessions that started at `since` or later, at the
    /// instant `now`, if each of them can be timed and the sum fits in 64 bits.
    pub fn time_since_at(&self, since: i64, now: &DateTime) -> (r: Option<u64>)
        requires
            self.wf(),
            now.wf(),
        ensures
            r is Some <==> all_timed(self.model(), since as int, *now) && time_since(
                self.model(),
                since as int,
                *now,
            ) <= u64::MAX,
            r matches Some(t) ==> t == time_since(self.model(), since as int, *now),
    {
        let ghost all = self.model();
        let mut sum: u128 = 0;
        let mut i: usize = 0;
        proof {
            assert(all.take(0) =~= Seq::<SessionView>::empty());
        }
        while i < self.sessions.len()
            invariant
                i <= self.sessions.len(),
                all == self.model(),
                self.wf(),
                now.wf(),
                all_timed(all.take(i as int), since as int, *now),
                sum == time_since(all.take(i as int), since as int, *now),
                sum <= i * 0xFFFF_FFFF_FFFF_FFFF,
            decreases self.sessions.len() - i,
        {
            let session = &self.sessions[i];
            let ghost next = all.take(i + 1);
            proof {
                assert(all[i as int] == session@);
                assert(all[i as int].wf());
                assert(next.drop_last() =~= all.take(i as int));
                assert(next.last() == session@);
            }
            if session.marks[0].date.millis >= since {
                match session.checked_time_at(now) {
                    None => {
                        return None;
                    },
                    Some(time) => {
                        sum = sum + time as u128;
                    },
                }
            }
            proof {
                assert forall|k: int|
                    0 <= k < next.len() && in_week(
                        #[trigger] next[k],
                        since as int,
                    ) implies next[k].timed(*now) by {
                    if k < i {
                        assert(all.take(i as int)[k] == next[k]);
                    }
                }
            }
            i += 1;
        }
        proof {
            assert(all.take(all.len() as int) =~= all);
        }
        if sum > u64::MAX as u128 {
            None
        } else {
            Some(sum as u64)
        }
    }

    /// The figures of the last session and of its week at the instant `now`,
    /// if they can be made.
    pub fn summary_at(&self, now: &DateTime) -> (r: Option<Summary>)
        requires
            self.wf(),
            now.wf(),
        ensures
            summary_agrees(r, summary_at(self.model(), *now)),
    {
        let session = &self.sessions[self.sessions.len() - 1];
        proof {
            assert(self.model().last() == session@);
            assert(self.model()[self.model().len() - 1].wf());
            assert(session@.marks[0].wf());
            assert(session@.marks[session@.marks.len() - 1].wf());
        }
        let start = session.marks[0].date.to_formatted();
        let last_date = session.marks[session.marks.len() - 1].date.to_formatted();
        self.summary_given(now, start.as_str(), last_date.as_str())
    }

    /// The figures of the last session and of its week at the instant `now`,
    /// if they can be made, with `start` for the text of the date at which
    /// the last session started and `last_date` for that of its last mark.
    pub fn summary_given(&self, now: &DateTime, start: &str, last_date: &str) -> (r: Option<
        Summary,
    >)
        requires
            self.wf(),
            now.wf(),
        ensures
            summary_agrees(
                r,
                if summarizable(self.model(), *now) {
                    Some(summary_given(self.model(), *now, start@, last_date@))
                } else {
                    None
                },
            ),
    {
        let session = &self.sessions[self.sessions.len() - 1];
        proof {
            assert(self.model().last() == session@);
            assert(self.model()[self.model().len() - 1].wf());
            assert(session@.marks[0].wf());
            assert(session@.marks[session@.marks.len() - 1].wf());
        }
        let active = session.is_active();
        if session.marks.len() == 1 && !active {
            return None;
        }
        let first = &session.marks[0];
        let last = &session.marks[session.marks.len() - 1];
        let since: i64 = DateTime::week_start_millis(&first.date);
        let week = match self.time_since_at(since, now) {
            None => {
                return None;
            },
            Some(week) => week,
        };
        let time = match session.checked_time_at(now) {
            None => {
                return None;
            },
            Some(time) => time,
        };
        let age = if active {
            if last.date.millis > now.millis {
                return None;
            }
            DateTime::get_time_hr_from_milli(DateTime::get_time(&last.date, now))
        } else {
            string_of(&chars_of("0"))
        };
        proof {
            reveal_strlit("0");
            assert("0"@ =~= seq!['0']);
        }
        Some(
            Summary {
                active,
                start: start.to_owned(),
                week_time: DateTime::get_time_hr_from_milli(week),
                session_time: DateTime::get_time_hr_from_milli(time),
                last_mark_age: age,
                last_mark_contents: string_of(&last.block_chars(last_date)),
            },
        )
    }

    /// The figures of the last session and of its week at the instant `now`,
    /// as lines for the reader, if they can be made.
    pub fn view_at(&self, now: &DateTime) -> (r: Option<String>)
        requires
            self.wf(),
            now.wf(),
        ensures
            view_agrees(r, summary_at(self.model(), *now)),
    {
        match self.summary_at(now) {
            None => None,
            Some(summary) => Some(summary.to_text()),
        }
    }

    /// The figures of the last session and of its week, up to now.
    pub fn summary(&self) -> (r: Option<Summary>)
        requires
            self.wf(),
        ensures
            exists|now: DateTime|
                now.wf() && now.whole_second() && summary_agrees(
                    r,
                    #[trigger] summary_at(self.model(), now),
                ),
    {
        let now = DateTime::now();
        self.summary_at(&now)
    }

    /// The figures of the last session and of its week, up to now, as lines for the reader.
    pub fn view(&self) -> (r: Option<String>)
        requires
            self.wf(),
        ensures
            exists|now: DateTime|
                now.wf() && now.whole_second() && view_agrees(
                    r,
                    #[trigger] summary_at(self.model(), now),
                ),
    {
        let now = DateTime::now();
        self.view_at(&now)
    }
}

impl Summary {
    /// The summary as lines for the reader.
    pub fn to_text(&self) -> (r: String)
        ensures
            r@ == self@.text(),
    {
        let mut text: Vec<char> = Vec::new();
        if !self.active {
            append_chars(&mut text, &chars_of("No active session, last session:\n"));
        }
        append_chars(&mut text, &chars_of("Start: "));
        append_chars(&mut text, &chars_of(self.start.as_str()));
        append_chars(&mut text, &chars_of("\nWeek: "));
        append_chars(&mut text, &chars_of(self.week_time.as_str()));
        append_chars(&mut text, &chars_of("\nTime: "));
        append_chars(&mut text, &chars_of(self.session_time.as_str()));
        append_chars(&mut text, &chars_of("\nMark: "));
        append_chars(&mut text, &chars_of(self.last_mark_age.as_str()));
        append_chars(&mut text, &chars_of("\n"));
        append_chars(&mut text, &chars_of("---------------------------------"));
        append_chars(&mut text, &chars_of("\n"));
        append_chars(&mut text, &chars_of(self.last_mark_contents.as_str()));
        proof {
            assert(text@ =~= self@.text());
        }
        string_of(&text)
    }
}

} // verus!
