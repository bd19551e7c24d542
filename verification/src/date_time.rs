//! Instants with the offset of their time zone, and the arithmetic on them.
//!
//! A `DateTime` is a count of milliseconds since 1970-01-01T00:00:00 UTC
//! together with the seconds that its local time is ahead of UTC. Calendar
//! work (text forms, the day of the week, setting a clock time) is done by
//! the `chrono` crate; everything else is arithmetic on the two numbers.

use crate::number::{decimal, parse_i64, parse_u32, push_decimal, written_i64, written_u32};
use crate::text::{chars_of, copy_range, string_of, trim, trim_chars};
use vstd::prelude::*;

verus! {

/// The earliest instant held: 0000-01-01T00:00:00 UTC.
pub const MIN_MILLIS: i64 = -62_167_219_200_000;

/// The latest instant held: 9999-12-31T23:59:59.999 UTC.
pub const MAX_MILLIS: i64 = 253_402_300_799_999;

/// Milliseconds in a second, an hour and a day.
pub const SECOND: i64 = 1_000;

pub const MINUTE: i64 = 60_000;

pub const HOUR: i64 = 3_600_000;

pub const DAY: i64 = 86_400_000;

/// The instants and offsets that the calendar functions are called with:
/// two days more than `DateTime` holds on either side.
pub open spec fn calendar_holds(millis: int, offset: int) -> bool {
    &&& MIN_MILLIS - 2 * DAY <= millis <= MAX_MILLIS + 2 * DAY
    &&& -86_400 < offset < 86_400
}

/// The local wall-clock time of an instant, in milliseconds since 1970-01-01T00:00:00 local.
pub open spec fn local_millis(millis: int, offset: int) -> int {
    millis + offset * 1000
}

/// The milliseconds since local midnight.
pub open spec fn time_of_day(millis: int, offset: int) -> int {
    local_millis(millis, offset) % (DAY as int)
}

/// The days from Monday to the local day of an instant: 0 for a Monday, 6 for a Sunday.
/// 1970-01-01 was a Thursday.
pub open spec fn days_from_monday(millis: int, offset: int) -> int {
    (local_millis(millis, offset) / (DAY as int) + 3) % 7
}

/// The instant of the same local day at midnight.
pub open spec fn midnight_of(millis: int, offset: int) -> int {
    millis - time_of_day(millis, offset)
}

/// The instant of the same local day with the hour set, minutes and below kept.
pub open spec fn hour_set(millis: int, offset: int, hour: int) -> int {
    let t = time_of_day(millis, offset);
    millis - t + hour * HOUR + t % (HOUR as int)
}

/// The instant of the same local hour with the minute set, seconds and below kept.
pub open spec fn minute_set(millis: int, offset: int, minute: int) -> int {
    let t = time_of_day(millis, offset);
    millis - t % (HOUR as int) + minute * MINUTE + t % (MINUTE as int)
}

/// The text that `chrono` writes for an instant at an offset under a `strftime` pattern.
pub uninterp spec fn date_text(millis: int, offset: int, pattern: Seq<char>) -> Seq<char>;

/// The instant and offset that `chrono` reads from a text in its relaxed RFC 3339 form,
/// if it reads any.
pub uninterp spec fn text_date(text: Seq<char>) -> Option<(i64, i32)>;

/// The pattern of the canonical form: `2002-05-08T12:00:00+00:00`.
pub open spec fn pattern_canonical() -> Seq<char> {
    "%FT%T%:z"@
}

/// The pattern of the form with spaces: `2002-05-08 12:00:00 +00:00`.
pub open spec fn pattern_pretty() -> Seq<char> {
    "%F %T %:z"@
}

/// The pattern of the time alone: `12:00:00`.
pub open spec fn pattern_time() -> Seq<char> {
    "%T"@
}

/// `chrono::Local::now`, as whole seconds since 1970-01-01T00:00:00 UTC and the
/// local offset in seconds. Nothing is promised of either: they are what the
/// machine's clock and time zone say.
#[verifier::external_body]
fn clock() -> (r: (i64, i32)) {
    let now = chrono::Local::now();
    (now.timestamp(), now.offset().local_minus_utc())
}

/// `chrono::DateTime::format` on the instant `millis` at `offset`, with one of
/// the three patterns of this module. The result is the text named `date_text`.
#[verifier::external_body]
fn write_date(millis: i64, offset: i32, pattern: &str) -> (r: String)
    requires
        calendar_holds(millis as int, offset as int),
        pattern@ == pattern_canonical() || pattern@ == pattern_pretty() || pattern@
            == pattern_time(),
    ensures
        r@ == date_text(millis as int, offset as int, pattern@),
{
    let zone = chrono::FixedOffset::east_opt(offset).unwrap();
    let date = chrono::DateTime::from_timestamp_millis(millis).unwrap().with_timezone(&zone);
    date.format(pattern).to_string()
}

/// `chrono`'s `FromStr` for `DateTime<FixedOffset>`: the instant in milliseconds
/// and the offset in seconds that it reads from `text`, named `text_date`.
#[verifier::external_body]
fn read_date(text: &str) -> (r: Option<(i64, i32)>)
    ensures
        r == text_date(text@),
{
    match text.parse::<chrono::DateTime<chrono::FixedOffset>>() {
        Ok(date) => Some((date.timestamp_millis(), date.offset().local_minus_utc())),
        Err(_) => None,
    }
}

/// `chrono::Datelike::weekday` and `Weekday::num_days_from_monday` on the
/// instant `millis` at `offset`: the day of the week of the local date.
#[verifier::external_body]
fn weekday_from_monday(millis: i64, offset: i32) -> (r: u32)
    requires
        calendar_holds(millis as int, offset as int),
    ensures
        r == days_from_monday(millis as int, offset as int),
{
    let zone = chrono::FixedOffset::east_opt(offset).unwrap();
    let date = chrono::DateTime::from_timestamp_millis(millis).unwrap().with_timezone(&zone);
    chrono::Datelike::weekday(&date).num_days_from_monday()
}

/// `chrono::DateTime::with_time` with the time 00:00:00: the instant at which
/// the local day of `millis` began.
#[verifier::external_body]
fn at_midnight(millis: i64, offset: i32) -> (r: i64)
    requires
        calendar_holds(millis as int, offset as int),
    ensures
        r == midnight_of(millis as int, offset as int),
{
    let zone = chrono::FixedOffset::east_opt(offset).unwrap();
    let date = chrono::DateTime::from_timestamp_millis(millis).unwrap().with_timezone(&zone);
    date.with_time(chrono::NaiveTime::MIN).unwrap().timestamp_millis()
}

/// `chrono::Timelike::with_hour`: the local hour is replaced, the rest of the
/// local date and time kept.
#[verifier::external_body]
fn at_hour(millis: i64, offset: i32, hour: u32) -> (r: i64)
    requires
        calendar_holds(millis as int, offset as int),
        hour < 24,
    ensures
        r == hour_set(millis as int, offset as int, hour as int),
{
    let zone = chrono::FixedOffset::east_opt(offset).unwrap();
    let date = chrono::DateTime::from_timestamp_millis(millis).unwrap().with_timezone(&zone);
    chrono::Timelike::with_hour(&date, hour).unwrap().timestamp_millis()
}

/// `chrono::Timelike::with_minute`: the local minute is replaced, the rest of
/// the local date and time kept.
#[verifier::external_body]
fn at_minute(millis: i64, offset: i32, minute: u32) -> (r: i64)
    requires
        calendar_holds(millis as int, offset as int),
        minute < 60,
    ensures
        r == minute_set(millis as int, offset as int, minute as int),
{
    let zone = chrono::FixedOffset::east_opt(offset).unwrap();
    let date = chrono::DateTime::from_timestamp_millis(millis).unwrap().with_timezone(&zone);
    chrono::Timelike::with_minute(&date, minute).unwrap().timestamp_millis()
}

/// Why a relative time could not be applied.
#[derive(Clone, Copy, Debug, PartialEq, Eq, Structural)]
pub enum InputError {
    /// The text is none of the accepted forms.
    Malformed,
    /// The text is well formed, but the time it leads to is not one that `DateTime` holds.
    OutOfRange,
}

impl InputError {
    /// What the error says.
    pub open spec fn text(self) -> Seq<char> {
        match self {
            InputError::Malformed => "failed to parse provided text"@,
            InputError::OutOfRange => "the date is out of range"@,
        }
    }

    /// What the error says.
    pub fn message(&self) -> (r: String)
        ensures
            r@ == self.text(),
    {
        match self {
            InputError::Malformed => string_of(&chars_of("failed to parse provided text")),
            InputError::OutOfRange => string_of(&chars_of("the date is out of range")),
        }
    }
}

/// An instant and the offset of its time zone.
#[derive(Clone, Copy, Debug, PartialEq, Eq, Structural)]
pub struct DateTime {
    /// Milliseconds since 1970-01-01T00:00:00 UTC.
    pub millis: i64,
    /// Seconds that local time is ahead of UTC.
    pub offset: i32,
}

/// The hours, minutes and seconds in `milli` milliseconds, as `<H>h <M>m <S>s`.
pub open spec fn time_hr(milli: nat) -> Seq<char> {
    let seconds = milli / 1000;
    decimal(seconds / 3600) + seq!['h', ' '] + decimal(seconds / 60 % 60) + seq!['m', ' ']
        + decimal(seconds % 60) + seq!['s']
}

/// `c` is one of the units of a relative time: seconds, minutes, hours.
pub open spec fn is_unit(c: char) -> bool {
    c == 's' || c == 'm' || c == 'h'
}

/// The milliseconds in one unit.
pub open spec fn unit_millis(c: char) -> int {
    if c == 's' {
        SECOND as int
    } else if c == 'm' {
        MINUTE as int
    } else {
        HOUR as int
    }
}

/// How often `c` occurs in `s`.
pub open spec fn count_of(s: Seq<char>, c: char) -> nat
    decreases s.len(),
{
    if s.len() == 0 {
        0
    } else {
        count_of(s.drop_last(), c) + if s.last() == c {
            1nat
        } else {
            0nat
        }
    }
}

/// The place of the first `c` in `s`, or the length of `s` if it holds none.
pub open spec fn first_index(s: Seq<char>, c: char) -> int
    decreases s.len(),
{
    if s.len() == 0 || s[0] == c {
        0
    } else {
        1 + first_index(s.drop_first(), c)
    }
}

/// `t` has the shape of a clock time: at most five characters, one colon, not at either end.
pub open spec fn is_clock(t: Seq<char>) -> bool {
    &&& t.len() <= 5
    &&& count_of(t, ':') == 1
    &&& t[0] != ':'
    &&& t.last() != ':'
}

impl DateTime {
    /// The instant lies in the years 0000 to 9999 and the offset is less than a day.
    pub open spec fn wf(&self) -> bool {
        &&& MIN_MILLIS <= self.millis <= MAX_MILLIS
        &&& -86_400 < self.offset < 86_400
    }

    /// The instant has no part below the second.
    pub open spec fn whole_second(&self) -> bool {
        self.millis % 1000 == 0
    }

    /// This instant cut to the whole second: what lies below the second is dropped.
    pub open spec fn whole(&self) -> DateTime {
        DateTime { millis: (self.millis - self.millis % 1000) as i64, offset: self.offset }
    }

    /// The text of this instant in the canonical form.
    pub open spec fn canonical_text(&self) -> Seq<char> {
        date_text(self.millis as int, self.offset as int, pattern_canonical())
    }

    /// The instant `millis` at this offset, where `DateTime` holds it.
    pub open spec fn at(&self, millis: int) -> Result<DateTime, InputError> {
        if MIN_MILLIS <= millis <= MAX_MILLIS {
            Ok(DateTime { millis: millis as i64, offset: self.offset })
        } else {
            Err(InputError::OutOfRange)
        }
    }

    /// The clock target `target`, moved by one `step` in the direction of `sign`
    /// unless it already lies on that side of this instant. A target equal to
    /// this instant counts as lying ahead.
    pub open spec fn rolled(&self, target: int, sign: int, step: int) -> Result<
        DateTime,
        InputError,
    > {
        let difference = target - self.millis;
        let stays = if difference == 0 {
            sign > 0
        } else {
            sign * difference > 0
        };
        self.at(
            if stays {
                target
            } else {
                target + sign * step
            },
        )
    }

    /// A number with a unit moves the instant by so many units, in the direction of `sign`.
    pub open spec fn spec_shift(&self, t: Seq<char>, sign: int) -> Result<DateTime, InputError> {
        match written_i64(t.drop_last()) {
            Some(n) => self.at(self.millis + sign * n * unit_millis(t.last())),
            None => Err(InputError::Malformed),
        }
    }

    /// A clock time `H:M` sets the local hour and minute, and is moved by a day
    /// where it lies on the wrong side of this instant.
    pub open spec fn spec_clock(&self, t: Seq<char>, sign: int) -> Result<DateTime, InputError> {
        let colon = first_index(t, ':');
        match (written_u32(t.take(colon)), written_u32(t.skip(colon + 1))) {
            (Some(hour), Some(minute)) => if hour < 24 && minute < 60 {
                let on_hour = hour_set(self.millis as int, self.offset as int, hour as int);
                self.rolled(
                    minute_set(on_hour, self.offset as int, minute as int),
                    sign,
                    DAY as int,
                )
            } else {
                Err(InputError::Malformed)
            },
            _ => Err(InputError::Malformed),
        }
    }

    /// A bare number sets the local minute, and is moved by an hour where it
    /// lies on the wrong side of this instant.
    pub open spec fn spec_minute(&self, t: Seq<char>, sign: int) -> Result<DateTime, InputError> {
        match written_u32(t) {
            Some(minute) => if minute < 60 {
                self.rolled(
                    minute_set(self.millis as int, self.offset as int, minute as int),
                    sign,
                    HOUR as int,
                )
            } else {
                Err(InputError::Malformed)
            },
            None => Err(InputError::Malformed),
        }
    }

    /// What a relative time does to this instant.
    ///
    /// The text is trimmed, and one leading `-` makes the sign negative. Then:
    /// a number with a unit `s`, `m` or `h` moves the instant by so much, the
    /// number's own sign counting too; `H:M` sets the local hour and minute;
    /// a bare number sets the local minute.
    pub open spec fn spec_modify(&self, text: Seq<char>) -> Result<DateTime, InputError> {
        let whole = trim(text);
        let negative = whole.len() > 0 && whole[0] == '-';
        let t = if negative {
            whole.drop_first()
        } else {
            whole
        };
        let sign: int = if negative {
            -1
        } else {
            1
        };
        if t.len() > 0 && is_unit(t.last()) {
            self.spec_shift(t, sign)
        } else if is_clock(t) {
            self.spec_clock(t, sign)
        } else {
            self.spec_minute(t, sign)
        }
    }

    /// The instant at which the local week of this one began: Monday, 00:00:00.
    pub open spec fn week_start(&self) -> int {
        midnight_of(self.millis as int, self.offset as int) - days_from_monday(
            self.millis as int,
            self.offset as int,
        ) * DAY
    }

    /// The instant `millis` at `offset`, if `DateTime` holds it.
    pub fn new(millis: i64, offset: i32) -> (r: Option<DateTime>)
        ensures
            r == if (DateTime { millis, offset }).wf() {
                Some(DateTime { millis, offset })
            } else {
                None::<DateTime>
            },
    {
        if MIN_MILLIS <= millis && millis <= MAX_MILLIS && -86_400 < offset && offset < 86_400 {
            Some(DateTime { millis, offset })
        } else {
            None
        }
    }

    /// Whether `DateTime` holds this instant and this offset.
    pub fn is_wf(&self) -> (r: bool)
        ensures
            r == self.wf(),
    {
        MIN_MILLIS <= self.millis && self.millis <= MAX_MILLIS && -86_400 < self.offset
            && self.offset < 86_400
    }

    /// The current local time, cut to the whole second. A clock or a time zone
    /// beyond what `DateTime` holds gives the nearest instant or offset held.
    pub fn now() -> (r: DateTime)
        ensures
            r.wf(),
            r.whole_second(),
    {
        let (seconds, offset) = clock();
        DateTime::from_clock(seconds, offset)
    }

    /// The instant that a clock shows which reads `seconds` whole seconds
    /// since 1970-01-01T00:00:00 UTC in a zone `offset` seconds ahead of UTC:
    /// that second and that offset where `DateTime` holds them, and the
    /// nearest that it holds where it does not.
    pub open spec fn shown_by(seconds: i64, offset: i32) -> DateTime {
        let second: int = if seconds < MIN_MILLIS / 1000 {
            MIN_MILLIS / 1000
        } else if seconds > MAX_MILLIS / 1000 {
            MAX_MILLIS / 1000
        } else {
            seconds as int
        };
        DateTime {
            millis: (second * 1000) as i64,
            offset: if offset <= -86_400 {
                -86_399i32
            } else if offset >= 86_400 {
                86_399i32
            } else {
                offset
            },
        }
    }

    /// The instant that a clock shows which reads `seconds` whole seconds
    /// since 1970-01-01T00:00:00 UTC in a zone `offset` seconds ahead of UTC.
    pub fn from_clock(seconds: i64, offset: i32) -> (r: DateTime)
        ensures
            r == DateTime::shown_by(seconds, offset),
            r.wf(),
            r.whole_second(),
            MIN_MILLIS <= seconds * 1000 <= MAX_MILLIS && -86_400 < offset < 86_400 ==> r.millis
                == seconds * 1000 && r.offset == offset,
    {
        let seconds: i64 = if seconds < MIN_MILLIS / 1000 {
            MIN_MILLIS / 1000
        } else if seconds > MAX_MILLIS / 1000 {
            MAX_MILLIS / 1000
        } else {
            seconds
        };
        let offset: i32 = if offset <= -86_400 {
            -86_399
        } else if offset >= 86_400 {
            86_399
        } else {
            offset
        };
        DateTime { millis: seconds * 1000, offset }
    }

    /// This instant cut to the whole second.
    pub fn truncated(&self) -> (r: DateTime)
        requires
            self.wf(),
        ensures
            r == self.whole(),
            r.wf(),
            r.whole_second(),
            self.whole_second() ==> r == *self,
    {
        let below: i64 = (self.millis - MIN_MILLIS) % 1000;
        DateTime { millis: self.millis - below, offset: self.offset }
    }

    /// This instant moved by `milli` milliseconds.
    pub fn plus_milli(&self, milli: i64) -> (r: DateTime)
        requires
            self.wf(),
            MIN_MILLIS <= self.millis + milli <= MAX_MILLIS,
        ensures
            r == (DateTime { millis: (self.millis + milli) as i64, offset: self.offset }),
            r.wf(),
    {
        DateTime { millis: self.millis + milli, offset: self.offset }
    }

    /// This instant moved by `seconds` seconds.
    pub fn plus_seconds(&self, seconds: i64) -> (r: DateTime)
        requires
            self.wf(),
            MIN_MILLIS <= self.millis + seconds * SECOND <= MAX_MILLIS,
        ensures
            r == (DateTime {
                millis: (self.millis + seconds * SECOND) as i64,
                offset: self.offset,
            }),
            r.wf(),
    {
        self.plus_milli(seconds * SECOND)
    }

    /// This instant moved by `minutes` minutes.
    pub fn plus_minutes(&self, minutes: i64) -> (r: DateTime)
        requires
            self.wf(),
            MIN_MILLIS <= self.millis + minutes * MINUTE <= MAX_MILLIS,
        ensures
            r == (DateTime {
                millis: (self.millis + minutes * MINUTE) as i64,
                offset: self.offset,
            }),
            r.wf(),
    {
        self.plus_milli(minutes * MINUTE)
    }

    /// This instant moved by `hours` hours.
    pub fn plus_hours(&self, hours: i64) -> (r: DateTime)
        requires
            self.wf(),
            MIN_MILLIS <= self.millis + hours * HOUR <= MAX_MILLIS,
        ensures
            r == (DateTime { millis: (self.millis + hours * HOUR) as i64, offset: self.offset }),
            r.wf(),
    {
        self.plus_milli(hours * HOUR)
    }

    /// This instant moved by `days` days.
    pub fn plus_days(&self, days: i64) -> (r: DateTime)
        requires
            self.wf(),
            MIN_MILLIS <= self.millis + days * DAY <= MAX_MILLIS,
        ensures
            r == (DateTime { millis: (self.millis + days * DAY) as i64, offset: self.offset }),
            r.wf(),
    {
        self.plus_milli(days * DAY)
    }

    /// The canonical text of `date`: `YYYY-MM-DDTHH:MM:SS±HH:MM`.
    pub fn format(date: &DateTime) -> (r: String)
        requires
            date.wf(),
        ensures
            r@ == date.canonical_text(),
    {
        write_date(date.millis, date.offset, "%FT%T%:z")
    }

    /// The canonical text of this instant.
    pub fn to_formatted(&self) -> (r: String)
        requires
            self.wf(),
        ensures
            r@ == self.canonical_text(),
    {
        DateTime::format(self)
    }

    /// The text of this instant with spaces between its parts: `YYYY-MM-DD HH:MM:SS ±HH:MM`.
    pub fn to_formatted_pretty(&self) -> (r: String)
        requires
            self.wf(),
        ensures
            r@ == self.pretty_text(),
    {
        write_date(self.millis, self.offset, "%F %T %:z")
    }

    /// The local time of day of this instant: `HH:MM:SS`.
    pub fn to_formatted_time(&self) -> (r: String)
        requires
            self.wf(),
        ensures
            r@ == date_text(self.millis as int, self.offset as int, pattern_time()),
    {
        write_date(self.millis, self.offset, "%T")
    }

    /// The text of this instant with spaces between its parts.
    pub open spec fn pretty_text(&self) -> Seq<char> {
        date_text(self.millis as int, self.offset as int, pattern_pretty())
    }

    /// The instant and offset that `text` writes, if it writes one that `DateTime` holds.
    pub open spec fn spec_parse(text: Seq<char>) -> Option<DateTime> {
        match text_date(text) {
            Some((millis, offset)) => if (DateTime { millis, offset }).wf() {
                Some(DateTime { millis, offset })
            } else {
                None
            },
            None => None,
        }
    }

    /// Reads an instant from its text: the canonical form, the form in
    /// documents, and what else `chrono` takes for RFC 3339.
    pub fn parse(text: &str) -> (r: Option<DateTime>)
        ensures
            r == DateTime::spec_parse(text@),
    {
        match read_date(text) {
            Some((millis, offset)) => DateTime::new(millis, offset),
            None => None,
        }
    }

    /// The milliseconds from `start` to `end`.
    pub fn get_time(start: &DateTime, end: &DateTime) -> (r: u64)
        requires
            start.wf(),
            end.wf(),
            start.millis <= end.millis,
        ensures
            r == end.millis - start.millis,
    {
        (end.millis - start.millis) as u64
    }

    /// `milli` milliseconds as hours, minutes and seconds: `<H>h <M>m <S>s`.
    pub fn get_time_hr_from_milli(milli: u64) -> (r: String)
        ensures
            r@ == time_hr(milli as nat),
    {
        let seconds: u64 = milli / 1000;
        let mut v: Vec<char> = Vec::new();
        push_decimal(&mut v, seconds / 3600);
        v.push('h');
        v.push(' ');
        push_decimal(&mut v, seconds / 60 % 60);
        v.push('m');
        v.push(' ');
        push_decimal(&mut v, seconds % 60);
        v.push('s');
        proof {
            assert(v@ =~= time_hr(milli as nat));
        }
        string_of(&v)
    }

    /// The instant at which the local week of `date` began, as milliseconds.
    pub fn week_start_millis(date: &DateTime) -> (r: i64)
        requires
            date.wf(),
        ensures
            r == date.week_start(),
    {
        let midnight: i64 = at_midnight(date.millis, date.offset);
        let days: u32 = weekday_from_monday(date.millis, date.offset);
        midnight - (days as i64) * DAY
    }

    /// Monday, 00:00:00 local time, of the week that holds `date`.
    pub fn get_start_of_week(date: &DateTime) -> (r: DateTime)
        requires
            date.wf(),
            MIN_MILLIS <= date.week_start(),
        ensures
            r == (DateTime { millis: date.week_start() as i64, offset: date.offset }),
            r.wf(),
    {
        DateTime { millis: DateTime::week_start_millis(date), offset: date.offset }
    }

    /// Moves a clock target to the side of this instant that `negative` asks for.
    fn roll(&self, target: i64, negative: bool, step: i64) -> (r: Result<DateTime, InputError>)
        requires
            self.wf(),
            calendar_holds(target as int, self.offset as int),
            step == DAY || step == HOUR,
        ensures
            r == self.rolled(
                target as int,
                if negative {
                    -1
                } else {
                    1
                },
                step as int,
            ),
    {
        let difference: i64 = target - self.millis;
        let stays: bool = if difference == 0 {
            !negative
        } else if negative {
            difference < 0
        } else {
            difference > 0
        };
        let moved: i64 = if stays {
            target
        } else if negative {
            target - step
        } else {
            target + step
        };
        if MIN_MILLIS <= moved && moved <= MAX_MILLIS {
            Ok(DateTime { millis: moved, offset: self.offset })
        } else {
            Err(InputError::OutOfRange)
        }
    }

    /// Moves this instant by the number with a unit that `t` writes.
    fn shift(&self, t: &Vec<char>, negative: bool) -> (r: Result<DateTime, InputError>)
        requires
            self.wf(),
            t@.len() > 0,
            is_unit(t@.last()),
        ensures
            r == self.spec_shift(
                t@,
                if negative {
                    -1
                } else {
                    1
                },
            ),
    {
        let n: usize = t.len();
        let unit: char = t[n - 1];
        let number = copy_range(t, 0, n - 1);
        proof {
            assert(t@.subrange(0, n - 1) =~= t@.drop_last());
        }
        match parse_i64(&number) {
            None => Err(InputError::Malformed),
            Some(count) => {
                let wide: i128 = count as i128;
                let scaled: i128 = if unit == 's' {
                    wide * 1_000
                } else if unit == 'm' {
                    wide * 60_000
                } else {
                    wide * 3_600_000
                };
                let by: i128 = if negative {
                    -scaled
                } else {
                    scaled
                };
                let moved: i128 = self.millis as i128 + by;
                proof {
                    let n = count as int;
                    let u = unit_millis(unit);
                    assert(n * u == scaled);
                    assert((-1) * n * u == -(n * u)) by (nonlinear_arith);
                    assert(1 * n * u == n * u) by (nonlinear_arith);
                }
                if MIN_MILLIS as i128 <= moved && moved <= MAX_MILLIS as i128 {
                    Ok(DateTime { millis: moved as i64, offset: self.offset })
                } else {
                    Err(InputError::OutOfRange)
                }
            },
        }
    }

    /// Sets the local hour and minute that the clock time `t` writes.
    fn clock_time(&self, t: &Vec<char>, negative: bool) -> (r: Result<DateTime, InputError>)
        requires
            self.wf(),
            is_clock(t@),
        ensures
            r == self.spec_clock(
                t@,
                if negative {
                    -1
                } else {
                    1
                },
            ),
    {
        proof {
            lemma_counted_occurs(t@, ':');
        }
        let colon: usize = find_char(t, ':');
        let hour_text = copy_range(t, 0, colon);
        let minute_text = copy_range(t, colon + 1, t.len());
        match (parse_u32(&hour_text), parse_u32(&minute_text)) {
            (Some(hour), Some(minute)) => {
                if hour < 24 && minute < 60 {
                    let on_hour: i64 = at_hour(self.millis, self.offset, hour);
                    let target: i64 = at_minute(on_hour, self.offset, minute);
                    self.roll(target, negative, DAY)
                } else {
                    Err(InputError::Malformed)
                }
            },
            _ => Err(InputError::Malformed),
        }
    }

    /// Sets the local minute that the bare number `t` writes.
    fn minute_of_hour(&self, t: &Vec<char>, negative: bool) -> (r: Result<DateTime, InputError>)
        requires
            self.wf(),
        ensures
            r == self.spec_minute(
                t@,
                if negative {
                    -1
                } else {
                    1
                },
            ),
    {
        match parse_u32(t) {
            Some(minute) => {
                if minute < 60 {
                    let target: i64 = at_minute(self.millis, self.offset, minute);
                    self.roll(target, negative, HOUR)
                } else {
                    Err(InputError::Malformed)
                }
            },
            None => Err(InputError::Malformed),
        }
    }

    /// Applies a relative time, such as `2h`, `-10`, `13:15`, to this instant.
    pub fn modify_by_relative_input(&self, text: &str) -> (r: Result<DateTime, InputError>)
        requires
            self.wf(),
        ensures
            r == self.spec_modify(text@),
    {
        let whole = trim_chars(&chars_of(text));
        let negative: bool = whole.len() > 0 && whole[0] == '-';
        let t: Vec<char> = if negative {
            copy_range(&whole, 1, whole.len())
        } else {
            whole
        };
        proof {
            if negative {
                assert(whole@.subrange(1, whole@.len() as int) =~= whole@.drop_first());
            }
        }
        let n: usize = t.len();
        if n > 0 && (t[n - 1] == 's' || t[n - 1] == 'm' || t[n - 1] == 'h') {
            self.shift(&t, negative)
        } else if n <= 5 && count_char(&t, ':') == 1 && t[0] != ':' && t[n - 1] != ':' {
            self.clock_time(&t, negative)
        } else {
            self.minute_of_hour(&t, negative)
        }
    }
}

/// How often `c` occurs in `v`.
pub fn count_char(v: &Vec<char>, c: char) -> (r: usize)
    ensures
        r == count_of(v@, c),
{
    let mut r: usize = 0;
    let mut i: usize = 0;
    while i < v.len()
        invariant
            i <= v.len(),
            r == count_of(v@.take(i as int), c),
            r <= i,
        decreases v.len() - i,
    {
        proof {
            assert(v@.take(i + 1).drop_last() =~= v@.take(i as int));
        }
        if v[i] == c {
            r += 1;
        }
        i += 1;
    }
    proof {
        assert(v@.take(v@.len() as int) =~= v@);
    }
    r
}

/// The place of the first `c` in `v`.
pub fn find_char(v: &Vec<char>, c: char) -> (r: usize)
    requires
        v@.contains(c),
    ensures
        r == first_index(v@, c),
        r < v.len(),
{
    let mut i: usize = 0;
    while i < v.len()
        invariant
            i <= v.len(),
            forall|k: int| 0 <= k < i ==> v@[k] != c,
        decreases v.len() - i,
    {
        if v[i] == c {
            proof {
                lemma_first_index(v@, c, i as int);
            }
            return i;
        }
        i += 1;
    }
    proof {
        let k = choose|k: int| 0 <= k < v@.len() && v@[k] == c;
        assert(false);
    }
    0
}

/// `first_index(s, c)` is `n` when no `c` stands before `n` and one stands there, or `s` ends.
pub proof fn lemma_first_index(s: Seq<char>, c: char, n: int)
    requires
        0 <= n <= s.len(),
        forall|i: int| 0 <= i < n ==> s[i] != c,
        n < s.len() ==> s[n] == c,
    ensures
        first_index(s, c) == n,
    decreases n,
{
    if n > 0 {
        let t = s.drop_first();
        assert forall|i: int| 0 <= i < n - 1 implies t[i] != c by {
            assert(t[i] == s[i + 1]);
        }
        lemma_first_index(t, c, n - 1);
    }
}

/// A character that is counted occurs.
pub proof fn lemma_counted_occurs(s: Seq<char>, c: char)
    ensures
        count_of(s, c) > 0 <==> s.contains(c),
    decreases s.len(),
{
    if s.len() > 0 {
        lemma_counted_occurs(s.drop_last(), c);
        if s.last() == c {
            assert(s[s.len() - 1] == c);
        } else if s.contains(c) {
            let k = choose|k: int| 0 <= k < s.len() && s[k] == c;
            assert(s.drop_last()[k] == c);
        } else if s.drop_last().contains(c) {
            let k = choose|k: int| 0 <= k < s.drop_last().len() && s.drop_last()[k] == c;
            assert(s[k] == c);
        }
    }
}

} // verus!
