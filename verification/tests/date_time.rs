use chrono::{Datelike, Timelike};
use time_tracker::date_time::{DateTime, InputError, MAX_MILLIS, MIN_MILLIS};

fn dt(date: &chrono::DateTime<chrono::Local>) -> DateTime {
    DateTime::new(date.timestamp_millis(), date.offset().local_minus_utc()).unwrap()
}

fn to_chrono(date: &DateTime) -> chrono::DateTime<chrono::FixedOffset> {
    let zone = chrono::FixedOffset::east_opt(date.offset).unwrap();
    chrono::DateTime::from_timestamp_millis(date.millis).unwrap().with_timezone(&zone)
}

fn now_chrono() -> chrono::DateTime<chrono::Local> {
    let now = DateTime::now();
    chrono::DateTime::from_timestamp_millis(now.millis).unwrap().into()
}

/// 2002-05-08 12:00:00 in the local time zone. The day is a Wednesday.
fn date_default() -> chrono::DateTime<chrono::Local> {
    now_chrono()
        .with_year(2002)
        .unwrap()
        .with_month(5)
        .unwrap()
        .with_day(8)
        .unwrap()
        .with_hour(12)
        .unwrap()
        .with_minute(0)
        .unwrap()
        .with_second(0)
        .unwrap()
}

fn utc(text: &str) -> DateTime {
    DateTime::parse(text).unwrap()
}

#[test]
fn date_time_now_works() {
    let now_dt = DateTime::now();
    let date = to_chrono(&now_dt);
    let formatted = now_dt.to_formatted();
    let now = chrono::Local::now();

    assert_eq!(date.year(), now.year());
    assert_eq!(date.month(), now.month());
    assert_eq!(date.day(), now.day());
    assert_eq!(date.hour(), now.hour());
    assert_eq!(date.minute(), now.minute());
    assert_eq!(date.second(), now.second());
    assert_eq!(date.nanosecond(), 0);
    assert_eq!(date.offset().local_minus_utc(), now.offset().local_minus_utc());

    assert_eq!(formatted, DateTime::format(&now_dt));
}

#[test]
fn date_time_new_works() {
    let date = date_default();
    let made = DateTime {
        millis: date.timestamp_millis(),
        offset: date.offset().local_minus_utc(),
    };
    assert_eq!(dt(&date_default()), made);
}

#[test]
fn date_time_plus_milli_works() {
    fn date_default_plus_milli(milli: i64) -> chrono::DateTime<chrono::Local> {
        let date_default = date_default();
        chrono::DateTime::from_timestamp_millis(date_default.timestamp_millis() + milli)
            .unwrap()
            .into()
    }

    assert_eq!(dt(&date_default()).plus_milli(500), dt(&date_default_plus_milli(500)));
    assert_eq!(
        dt(&date_default()).plus_milli(500_000_000_000),
        dt(&date_default_plus_milli(500_000_000_000))
    );
    assert_eq!(dt(&date_default()).plus_milli(0), dt(&date_default_plus_milli(0)));
    assert_eq!(dt(&date_default()).plus_milli(-0), dt(&date_default_plus_milli(-0)));
    assert_eq!(dt(&date_default()).plus_milli(-300), dt(&date_default_plus_milli(-300)));
    assert_eq!(
        dt(&date_default()).plus_milli(-300_000_000),
        dt(&date_default_plus_milli(-300_000_000))
    );
}

#[test]
fn date_time_plus_seconds_works() {
    let date_default = date_default();
    assert_eq!(dt(&date_default).plus_seconds(15), dt(&date_default).plus_milli(15 * 1000));
    assert_eq!(dt(&date_default).plus_seconds(1500), dt(&date_default).plus_milli(1500 * 1000));
    assert_eq!(dt(&date_default).plus_seconds(-12), dt(&date_default).plus_milli(-12 * 1000));
    assert_eq!(dt(&date_default).plus_seconds(-400), dt(&date_default).plus_milli(-400 * 1000));
}

#[test]
fn date_time_plus_minutes_works() {
    let date_default = date_default();
    assert_eq!(dt(&date_default).plus_minutes(15), dt(&date_default).plus_milli(15 * 60 * 1000));
    assert_eq!(
        dt(&date_default).plus_minutes(1500),
        dt(&date_default).plus_milli(1500 * 60 * 1000)
    );
    assert_eq!(dt(&date_default).plus_minutes(-12), dt(&date_default).plus_milli(-12 * 60 * 1000));
    assert_eq!(
        dt(&date_default).plus_minutes(-400),
        dt(&date_default).plus_milli(-400 * 60 * 1000)
    );
}

#[test]
fn date_time_plus_hours_works() {
    let date_default = date_default();
    assert_eq!(
        dt(&date_default).plus_hours(15),
        dt(&date_default).plus_milli(15 * 60 * 60 * 1000)
    );
    assert_eq!(
        dt(&date_default).plus_hours(1500),
        dt(&date_default).plus_milli(1500 * 60 * 60 * 1000)
    );
    assert_eq!(
        dt(&date_default).plus_hours(-12),
        dt(&date_default).plus_milli(-12 * 60 * 60 * 1000)
    );
    assert_eq!(
        dt(&date_default).plus_hours(-400),
        dt(&date_default).plus_milli(-400 * 60 * 60 * 1000)
    );
}

#[test]
fn date_time_plus_days_works() {
    let date_default = date_default();
    assert_eq!(
        dt(&date_default).plus_days(15),
        dt(&date_default).plus_milli(15 * 24 * 60 * 60 * 1000)
    );
    assert_eq!(
        dt(&date_default).plus_days(1500),
        dt(&date_default).plus_milli(1500 * 24 * 60 * 60 * 1000)
    );
    assert_eq!(
        dt(&date_default).plus_days(-12),
        dt(&date_default).plus_milli(-12 * 24 * 60 * 60 * 1000)
    );
    assert_eq!(
        dt(&date_default).plus_days(-400),
        dt(&date_default).plus_milli(-400 * 24 * 60 * 60 * 1000)
    );
}

#[test]
fn date_time_get_start_of_week_works() {
    let start = DateTime::get_start_of_week(&dt(&date_default()));
    let date = to_chrono(&start);
    assert_eq!(date.weekday(), chrono::Weekday::Mon);
    assert_eq!(
        start,
        // Will break if date_default changes.
        dt(&date_default().with_day(date_default().day() - 2).unwrap().with_hour(0).unwrap())
    );
    let time = date.time();
    assert_eq!(time.hour(), 0);
    assert_eq!(time.minute(), 0);
    assert_eq!(time.second(), 0);
}

#[test]
fn date_time_get_time_works() {
    let start = now_chrono().with_minute(2).unwrap();
    let end = start.with_minute(5).unwrap();
    let time = DateTime::get_time(&dt(&start), &dt(&end));
    assert_eq!(time, 180_000);
}

#[test]
fn date_time_get_time_hr_from_milli_works() {
    let start = now_chrono()
        .with_year(2000)
        .unwrap()
        .with_month(1)
        .unwrap()
        .with_day(1)
        .unwrap()
        .with_hour(0)
        .unwrap()
        .with_minute(0)
        .unwrap()
        .with_second(0)
        .unwrap();
    let end = start
        // 7*31*24=5208h
        // 4*30*24=2880h
        // 1*29*24=0696h
        .with_year(2001)
        .unwrap()
        // +744h
        .with_month(2)
        .unwrap()
        // +24h
        .with_day(2)
        .unwrap()
        // +2h
        .with_hour(2)
        .unwrap()
        .with_minute(2)
        .unwrap()
        .with_second(2)
        .unwrap();
    let text = "9554h 2m 2s";
    let time = DateTime::get_time(&dt(&start), &dt(&end));
    assert_eq!(DateTime::get_time_hr_from_milli(time), text);
}

#[test]
fn date_time_modify_by_relative_input_works() {
    let date = date_default();

    assert_eq!(dt(&date).modify_by_relative_input("2s").unwrap(), dt(&date).plus_seconds(2));
    assert_eq!(dt(&date).modify_by_relative_input("-2s").unwrap(), dt(&date).plus_seconds(-2));
    assert_eq!(dt(&date).modify_by_relative_input("60s").unwrap(), dt(&date).plus_seconds(60));
    assert_eq!(dt(&date).modify_by_relative_input("-60s").unwrap(), dt(&date).plus_seconds(-60));
    assert_eq!(dt(&date).modify_by_relative_input("--15s").unwrap(), dt(&date).plus_seconds(15));
    assert_eq!(dt(&date).modify_by_relative_input("+15s").unwrap(), dt(&date).plus_seconds(15));
    assert_eq!(dt(&date).modify_by_relative_input("2m").unwrap(), dt(&date).plus_minutes(2));
    assert_eq!(dt(&date).modify_by_relative_input("-2m").unwrap(), dt(&date).plus_minutes(-2));
    assert_eq!(dt(&date).modify_by_relative_input("60m").unwrap(), dt(&date).plus_minutes(60));
    assert_eq!(dt(&date).modify_by_relative_input("-60m").unwrap(), dt(&date).plus_minutes(-60));
    assert_eq!(dt(&date).modify_by_relative_input("--15m").unwrap(), dt(&date).plus_minutes(15));
    assert_eq!(dt(&date).modify_by_relative_input("+15m").unwrap(), dt(&date).plus_minutes(15));
    assert_eq!(dt(&date).modify_by_relative_input("2h").unwrap(), dt(&date).plus_hours(2));
    assert_eq!(dt(&date).modify_by_relative_input("-2h").unwrap(), dt(&date).plus_hours(-2));
    assert_eq!(dt(&date).modify_by_relative_input("60h").unwrap(), dt(&date).plus_hours(60));
    assert_eq!(dt(&date).modify_by_relative_input("-60h").unwrap(), dt(&date).plus_hours(-60));
    assert_eq!(dt(&date).modify_by_relative_input("--15h").unwrap(), dt(&date).plus_hours(15));
    assert_eq!(dt(&date).modify_by_relative_input("+15h").unwrap(), dt(&date).plus_hours(15));

    assert_eq!(
        dt(&date_default()).modify_by_relative_input("10").unwrap(),
        dt(&date_default().with_minute(10).unwrap())
    );
    assert_eq!(
        dt(&date_default()).modify_by_relative_input("-10").unwrap(),
        dt(&date_default().with_hour(11).unwrap().with_minute(10).unwrap())
    );
    assert_eq!(
        dt(&date_default().with_minute(30).unwrap()).modify_by_relative_input("10").unwrap(),
        dt(&date_default().with_hour(13).unwrap().with_minute(10).unwrap())
    );
    assert_eq!(
        dt(&date_default().with_minute(30).unwrap()).modify_by_relative_input("-10").unwrap(),
        dt(&date_default().with_minute(10).unwrap())
    );
    assert_eq!(
        dt(&date_default().with_minute(10).unwrap()).modify_by_relative_input("10").unwrap(),
        dt(&date_default().with_minute(10).unwrap())
    );
    assert_eq!(
        dt(&date_default().with_minute(10).unwrap()).modify_by_relative_input("-10").unwrap(),
        dt(&date_default().with_hour(11).unwrap().with_minute(10).unwrap())
    );
    assert_eq!(
        dt(&date_default()).modify_by_relative_input("-12:00").unwrap(),
        dt(&date_default().with_day(date_default().day() - 1).unwrap())
    );
    assert_eq!(dt(&date_default()).modify_by_relative_input("12:00").unwrap(), dt(&date_default()));
    // Sets the time and keeps the day because the time already happened today.
    assert_eq!(
        dt(&date_default()).modify_by_relative_input("-9:02").unwrap(),
        dt(&date_default().with_hour(9).unwrap().with_minute(2).unwrap())
    );
    assert_eq!(
        dt(&date_default()).modify_by_relative_input("-09:2").unwrap(),
        dt(&date_default().with_hour(9).unwrap().with_minute(2).unwrap())
    );
    assert_eq!(
        dt(&date_default()).modify_by_relative_input("13:15").unwrap(),
        dt(&date_default().with_hour(13).unwrap().with_minute(15).unwrap())
    );
    // Sets the time and day because the time hasn't happened today yet.
    assert_eq!(
        dt(&date_default()).modify_by_relative_input("9:02").unwrap(),
        dt(&date_default()
            .with_day(date_default().day() + 1)
            .unwrap()
            .with_hour(9)
            .unwrap()
            .with_minute(2)
            .unwrap())
    );
    assert_eq!(
        dt(&date_default()).modify_by_relative_input("-13:15").unwrap(),
        dt(&date_default()
            .with_day(date_default().day() - 1)
            .unwrap()
            .with_hour(13)
            .unwrap()
            .with_minute(15)
            .unwrap())
    );

    let base = dt(&date);
    assert!(base.modify_by_relative_input("").is_err());
    assert!(base.modify_by_relative_input("-").is_err());
    assert!(base.modify_by_relative_input("--5").is_err());
    assert!(base.modify_by_relative_input("60").is_err());
    assert!(base.modify_by_relative_input("-60").is_err());
    assert!(base.modify_by_relative_input("12:").is_err());
    assert!(base.modify_by_relative_input(":12").is_err());
    assert!(base.modify_by_relative_input("12:05:37").is_err());
    assert!(base.modify_by_relative_input("24:05").is_err());
    assert!(base.modify_by_relative_input("23:60").is_err());
    assert!(base.modify_by_relative_input("--23:40").is_err());
}

#[test]
fn new_refuses_what_is_out_of_range() {
    assert!(DateTime::new(MIN_MILLIS, 0).is_some());
    assert!(DateTime::new(MAX_MILLIS, 0).is_some());
    assert!(DateTime::new(MIN_MILLIS - 1, 0).is_none());
    assert!(DateTime::new(MAX_MILLIS + 1, 0).is_none());
    assert!(DateTime::new(0, 86_399).is_some());
    assert!(DateTime::new(0, 86_400).is_none());
    assert!(DateTime::new(0, -86_400).is_none());
}

#[test]
fn format_writes_the_canonical_form() {
    let date = DateTime::new(1_020_859_200_000, 0).unwrap();
    assert_eq!(DateTime::format(&date), "2002-05-08T12:00:00+00:00");
    assert_eq!(date.to_formatted(), "2002-05-08T12:00:00+00:00");
    assert_eq!(date.to_formatted_pretty(), "2002-05-08 12:00:00 +00:00");
    assert_eq!(date.to_formatted_time(), "12:00:00");
    let east = DateTime::new(1_020_859_200_000, 9 * 3600 + 30 * 60).unwrap();
    assert_eq!(east.to_formatted(), "2002-05-08T21:30:00+09:30");
    let west = DateTime::new(1_020_859_200_000, -5 * 3600).unwrap();
    assert_eq!(west.to_formatted_pretty(), "2002-05-08 07:00:00 -05:00");
}

#[test]
fn parse_reads_what_format_writes() {
    for offset in [0, 3600, -5 * 3600, 9 * 3600 + 30 * 60] {
        for millis in [0i64, 1_020_859_200_000, 951_782_399_000, MIN_MILLIS, MAX_MILLIS - 999] {
            let date = DateTime::new(millis, offset).unwrap();
            if millis + (offset as i64) * 1000 < MIN_MILLIS
                || millis + (offset as i64) * 1000 > MAX_MILLIS
            {
                continue;
            }
            assert_eq!(DateTime::parse(&date.to_formatted()), Some(date));
            assert_eq!(DateTime::parse(&date.to_formatted_pretty()), Some(date));
        }
    }
    assert_eq!(utc("2002-05-08T12:00:00+00:00").millis, 1_020_859_200_000);
    assert_eq!(utc("2002-05-08 14:00:00 +02:00").millis, 1_020_859_200_000);
    assert_eq!(utc("2002-05-08 14:00:00 +02:00").offset, 7200);
    assert!(DateTime::parse("").is_none());
    assert!(DateTime::parse("2002-05-08").is_none());
    assert!(DateTime::parse("yesterday").is_none());
}

#[test]
fn start_of_week_is_monday_midnight() {
    // 2002-05-08 was a Wednesday; the week began on 2002-05-06.
    let wednesday = utc("2002-05-08T12:00:00+00:00");
    assert_eq!(DateTime::get_start_of_week(&wednesday), utc("2002-05-06T00:00:00+00:00"));
    let monday = utc("2002-05-06T00:00:00+00:00");
    assert_eq!(DateTime::get_start_of_week(&monday), monday);
    let sunday = utc("2002-05-12T23:59:59+00:00");
    assert_eq!(DateTime::get_start_of_week(&sunday), monday);
    // The week is that of the local date: this instant is a Monday in its own zone.
    let local = utc("2002-05-06T01:00:00+03:00");
    assert_eq!(DateTime::get_start_of_week(&local), utc("2002-05-06T00:00:00+03:00"));
    // Across the turn of a month.
    let first = utc("2002-05-01T08:00:00+00:00");
    assert_eq!(DateTime::get_start_of_week(&first), utc("2002-04-29T00:00:00+00:00"));
    // Before 1970.
    let old = utc("1969-12-31T10:00:00+00:00");
    assert_eq!(DateTime::get_start_of_week(&old), utc("1969-12-29T00:00:00+00:00"));
    assert_eq!(DateTime::week_start_millis(&wednesday), monday.millis);
}

#[test]
fn get_time_hr_has_all_three_parts() {
    assert_eq!(DateTime::get_time_hr_from_milli(0), "0h 0m 0s");
    assert_eq!(DateTime::get_time_hr_from_milli(999), "0h 0m 0s");
    assert_eq!(DateTime::get_time_hr_from_milli(1000), "0h 0m 1s");
    assert_eq!(DateTime::get_time_hr_from_milli(7_200_000), "2h 0m 0s");
    assert_eq!(DateTime::get_time_hr_from_milli(3_661_000), "1h 1m 1s");
    assert_eq!(DateTime::get_time_hr_from_milli(360_000_000), "100h 0m 0s");
    assert_eq!(DateTime::get_time_hr_from_milli(u64::MAX), "5124095576030h 25m 51s");
}

#[test]
fn relative_input_edge_cases() {
    let base = utc("2002-05-08T12:00:30+00:00");
    // The seconds are kept when the clock is set.
    assert_eq!(base.modify_by_relative_input("13:15").unwrap(), utc("2002-05-08T13:15:30+00:00"));
    assert_eq!(base.modify_by_relative_input(" 2h ").unwrap(), utc("2002-05-08T14:00:30+00:00"));
    assert_eq!(base.modify_by_relative_input("+9:02").unwrap(), utc("2002-05-09T09:02:30+00:00"));
    assert_eq!(base.modify_by_relative_input("0").unwrap(), utc("2002-05-08T12:00:30+00:00"));
    assert_eq!(base.modify_by_relative_input("-0").unwrap(), utc("2002-05-08T11:00:30+00:00"));
    assert_eq!(base.modify_by_relative_input("0s").unwrap(), base);
    assert_eq!(base.modify_by_relative_input("h"), Err(InputError::Malformed));
    assert_eq!(base.modify_by_relative_input("2d"), Err(InputError::Malformed));
    assert_eq!(base.modify_by_relative_input("1:2:3"), Err(InputError::Malformed));
    assert_eq!(base.modify_by_relative_input("+13:15"), Err(InputError::Malformed));
    assert_eq!(base.modify_by_relative_input("99999999999999999999s"), Err(InputError::Malformed));
    assert_eq!(base.modify_by_relative_input("9223372036854775807h"), Err(InputError::OutOfRange));
    assert_eq!(base.modify_by_relative_input("99999999h"), Err(InputError::OutOfRange));
    assert_eq!(base.modify_by_relative_input("-99999999h"), Err(InputError::OutOfRange));
    // The clock is set in the zone of the instant.
    let east = utc("2002-05-08T12:00:00+02:00");
    assert_eq!(east.modify_by_relative_input("13:15").unwrap(), utc("2002-05-08T13:15:00+02:00"));
}

#[test]
fn a_clock_reading_is_brought_into_range() {
    assert_eq!(
        DateTime::from_clock(1_020_859_200, 7200),
        DateTime::new(1_020_859_200_000, 7200).unwrap()
    );
    assert_eq!(DateTime::from_clock(0, 0), DateTime::new(0, 0).unwrap());
    assert_eq!(DateTime::from_clock(-1, -3600), DateTime::new(-1000, -3600).unwrap());
    assert_eq!(DateTime::from_clock(i64::MAX, 0).millis, 253_402_300_799_000);
    assert_eq!(DateTime::from_clock(i64::MIN, 0).millis, MIN_MILLIS);
    assert_eq!(DateTime::from_clock(0, 86_400).offset, 86_399);
    assert_eq!(DateTime::from_clock(0, i32::MIN).offset, -86_399);
    assert!(DateTime::from_clock(i64::MAX, i32::MAX).is_wf());
    let before = chrono::Local::now().timestamp();
    let now = DateTime::now();
    let after = chrono::Local::now().timestamp();
    assert!(before * 1000 <= now.millis && now.millis <= after * 1000);
    assert_eq!(now.millis % 1000, 0);
}
