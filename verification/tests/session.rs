use chrono::{Datelike, Timelike};
use time_tracker::aggregator::Aggregator;
use time_tracker::config::Config;
use time_tracker::date_time::DateTime;
use time_tracker::document::SessionFile;
use time_tracker::label::{Attribute, Tag};
use time_tracker::mark::Mark;
use time_tracker::session::Session;

const SESSION_HEADING_PREFIX: &str = "# ";
const SESSION_TITLE: &str = "Session";
const MARKS_HEADING: &str = "## Marks";
const MARK_HEADING_PREFIX: &str = "### ";
const LABEL_END: &str = "- end";
const LABEL_SKIP: &str = "- skip";
const LABEL_TAG: &str = "- tag";
const LABEL_TAG_SURROUND: &str = "`";
const COMMAND_VIEW_MARK_CONTENTS_SEPARATOR: &str = "---------------------------------";

fn dt(date: &chrono::DateTime<chrono::Local>) -> DateTime {
    DateTime::new(date.timestamp_millis(), date.offset().local_minus_utc()).unwrap()
}

fn now_chrono() -> chrono::DateTime<chrono::Local> {
    let now = DateTime::now();
    chrono::DateTime::from_timestamp_millis(now.millis).unwrap().into()
}

/// 2002-05-08 12:00:00 in the local time zone. The day is a Wednesday.
fn date_default() -> chrono::DateTime<chrono::Local> {
    now_chrono()
        .with_year(2002)
        .unwrap()
        .with_month(5)
        .unwrap()
        .with_day(8)
        .unwrap()
        .with_hour(12)
        .unwrap()
        .with_minute(0)
        .unwrap()
        .with_second(0)
        .unwrap()
}

fn now_plus_secs(secs: i64) -> DateTime {
    DateTime::now().plus_milli(secs * 1000)
}

fn config() -> Config {
    Config { sessions_path: String::from("sessions") }
}

fn tagged(mark: &mut Mark, texts: &[&str]) {
    for text in texts {
        mark.tag(&Tag::from_text(text).unwrap());
    }
}

fn get_template(date: &str) -> String {
    format!(
        "\
        {SESSION_HEADING_PREFIX}{SESSION_TITLE}\n\
        \n\
        {MARKS_HEADING}\n\
        \n\
        {MARK_HEADING_PREFIX}{date}\
        "
    )
}

#[test]
fn aggregator_view_works() {
    let date_default = date_default();
    let mark_start = Mark::new(&dt(&date_default).plus_hours(-2));
    let mark_end = Mark::new(&dt(&date_default).plus_minutes(-30));
    let mut session_third = Session {
        path: String::from("sessions"),
        marks: vec![mark_start, mark_end.clone()],
    };
    let start = session_third.start().to_formatted();

    // Gets ignored because it's not in the current week.
    let mut session_first = Session {
        path: session_third.path.clone(),
        marks: vec![
            Mark::new(&dt(&date_default).plus_days(-12)),
            Mark::new(&dt(&date_default).plus_days(-9)),
        ],
    };
    session_first.marks.last_mut().unwrap().attribute = Attribute::Stop;

    let mut session_second = Session {
        path: session_third.path.clone(),
        marks: vec![
            Mark::new(&dt(&date_default).plus_days(-2)),
            Mark::new(&dt(&date_default).plus_days(-1)),
        ],
    };
    session_second.marks.last_mut().unwrap().attribute = Attribute::Stop;

    let aggregator = Aggregator {
        sessions: vec![session_first.clone(), session_second.clone(), session_third.clone()],
    };

    // Goes up to current time.
    let output = aggregator.view().unwrap();
    let lines: Vec<&str> = output.lines().collect();
    assert_eq!(lines.len(), 6);
    assert_eq!(lines[0], format!("Start: {start}"));
    // Not explicitly checking if it included the current time in the calculation, just
    // excluding the possibility that it calculated only up to the last mark.
    assert_ne!(lines[1], "Week: 25h 30m 0s");
    assert_ne!(lines[2], "Time: 1h 30m 0s");
    assert_ne!(lines[3], "Mark: 0");
    assert_eq!(lines[4], COMMAND_VIEW_MARK_CONTENTS_SEPARATOR);
    assert_eq!(lines[5], mark_end.to_string());

    session_third.marks.pop();
    session_third.stop(&DateTime::now()).unwrap();
    let mark = &mut session_third.marks[1];
    mark.date = mark_end.date;
    let mark_end = session_third.marks.last().unwrap();
    let aggregator = Aggregator {
        sessions: vec![session_first.clone(), session_second.clone(), session_third.clone()],
    };
    assert_eq!(
        aggregator.view().unwrap(),
        format!(
            "\
            No active session, last session:\n\
            Start: {start}\n\
            Week: 25h 30m 0s\n\
            Time: 1h 30m 0s\n\
            Mark: 0\n\
            {COMMAND_VIEW_MARK_CONTENTS_SEPARATOR}\n\
            {}\
            ",
            mark_end.to_string()
        )
    );
}

#[test]
fn session_file_build_works() {
    let contents = get_template(&DateTime::now().to_formatted());
    let file = SessionFile::build("", &contents).unwrap();
    assert_eq!(&file.contents, &contents);
}

#[test]
fn session_file_get_heading_with_contents_works() {
    let date = &DateTime::now();
    let contents = get_template(&date.to_formatted());
    let heading_contents = SessionFile::get_heading_with_contents(MARKS_HEADING, &contents);
    assert_eq!(
        heading_contents,
        format!(
            "\
            {MARKS_HEADING}\n\
            \n\
            {MARK_HEADING_PREFIX}{}\
            ",
            date.to_formatted()
        )
    );
}

#[test]
fn session_new_works() {
    let config = Config { sessions_path: String::from(".") };
    let date = DateTime::now();
    let mark = Mark::new(&date);
    let session = Session {
        path: std::path::Path::new(&config.sessions_path)
            .join(format!("{}.md", date.to_formatted()))
            .to_str()
            .unwrap()
            .to_owned(),
        marks: vec![mark],
    };
    assert_eq!(Session::new(&config, &date), session);
}

#[test]
fn session_start_works() {
    let mut session = Session::new(&config(), &DateTime::now());
    let date = now_plus_secs(30);
    session.marks.push(Mark::new(&date));
    assert_eq!(session.start(), session.marks.first().unwrap().date);
}

#[test]
fn session_end_works() {
    let mut session = Session::new(&config(), &DateTime::now());
    assert_eq!(session.end(), session.marks.last().unwrap().date);
    session.stop(&DateTime::now()).unwrap();
    session.marks.last_mut().unwrap().date = now_plus_secs(30);
    assert_eq!(session.end(), session.marks.last().unwrap().date);
}

#[test]
fn session_is_active_works() {
    let mut session = Session::new(&config(), &DateTime::now());
    assert!(session.is_active());
    assert!(session.marks.last().unwrap().attribute != Attribute::Stop);
    session.stop(&DateTime::now()).unwrap();
    assert!(!session.is_active());
    assert!(session.marks.last().unwrap().attribute == Attribute::Stop);
}

// It ignores `mark_first` and counts to current time, so `mark_second` is the final time.
#[test]
fn session_get_time_ignores_marks_if_they_have_label_skip() {
    let mut mark_first = Mark::new(&now_plus_secs(-3 * 60 * 60));
    mark_first.attribute = Attribute::Skip;
    let mark_second = Mark::new(&now_plus_secs(-54 * 60 - 10)); // 54m 10s
    let mark_third = Mark::new(&now_plus_secs(-10 * 60));
    let session = Session {
        path: String::from("sessions"),
        marks: vec![mark_first, mark_second, mark_third],
    };
    assert_eq!(session.get_time().unwrap(), (54 * 60 + 10) * 1000);
}

#[test]
fn session_get_time_ignores_current_time_if_last_mark_has_label_skip() {
    let mark_first = Mark::new(&now_plus_secs(-3 * 60 * 60));
    let mut mark_second = Mark::new(&now_plus_secs(-1 * 60 * 60 - 33 * 60 - 20)); // 1h 33m 20s
    mark_second.attribute = Attribute::Skip;
    let session = Session {
        path: String::from("sessions"),
        marks: vec![mark_first, mark_second],
    };
    assert_eq!(session.get_time().unwrap(), (1 * 60 * 60 + 26 * 60 + 40) * 1000);
}

#[test]
fn session_stop_works() {
    let date = DateTime::now();
    let mut session = Session::new(&config(), &date);
    let mut clone = session.clone();
    session.stop(&date).unwrap();
    let mut mark = Mark::new(&date);
    mark.attribute = Attribute::Stop;
    clone.marks.push(mark);
    assert_eq!(session, clone);
}

#[test]
fn cannot_stop_when_session_ended() {
    let mut session = Session::new(&config(), &DateTime::now());
    session.stop(&DateTime::now()).unwrap();
    let clone = session.clone();
    assert!(session.stop(&DateTime::now()).is_err());
    assert_eq!(session, clone);
}

#[test]
fn session_skip_works() {
    let mut session = Session::new(&config(), &DateTime::now());
    assert_eq!(session.marks.last_mut().unwrap().attribute, Attribute::Nothing);
    session.skip();
    assert_eq!(session.marks.last_mut().unwrap().attribute, Attribute::Skip);
}

#[test]
fn session_skip_overwrites_stop() {
    let mut session = Session::new(&config(), &DateTime::now());
    session.stop(&DateTime::now()).unwrap();
    assert_eq!(session.marks.last_mut().unwrap().attribute, Attribute::Stop);
    session.skip();
    assert_eq!(session.marks.last_mut().unwrap().attribute, Attribute::Skip);
}

#[test]
fn session_mark_works() {
    let date = DateTime::now();
    let mut session = Session::new(&config(), &date);
    let mark = Mark::new(&date);
    session.mark(&date).unwrap();
    assert_eq!(session.marks.len(), 2);
    assert_eq!(session.marks[1], mark);
}

#[test]
fn session_mark_preserves_integrity_of_previous_content() {
    let date = DateTime::now();
    let mark_first = Mark::new(&dt(&now_chrono().with_hour(14).unwrap()));
    let mark_second = Mark::new(&dt(&now_chrono().with_hour(14).unwrap().with_minute(47).unwrap()));
    let mut session = Session {
        path: format!("./sessions/{}.md", date.to_formatted()),
        marks: vec![mark_first, mark_second],
    };
    let mut clone = session.clone();
    session.mark(&DateTime::now()).unwrap();
    assert_eq!(session.marks.len(), 3);
    clone.marks.push(session.marks[2].clone());
    assert_eq!(session, clone);
}

#[test]
fn cannot_mark_when_session_ended() {
    let mut session = Session::new(&config(), &DateTime::now());
    session.stop(&DateTime::now()).unwrap();
    let clone = session.clone();
    assert!(session.mark(&DateTime::now()).is_err());
    assert_eq!(session, clone);
}

#[test]
fn session_remark_works() {
    let date = DateTime::now();
    let mut session = Session::new(&config(), &date);
    session.mark(&date).unwrap();
    let clone = session.clone();
    session.marks.last_mut().unwrap().date = now_plus_secs(30);
    assert_ne!(session, clone);
    session.remark(&date);
    assert_eq!(session, clone);
}

#[test]
fn session_unmark_works() {
    let mut session = Session::new(&config(), &DateTime::now());

    assert_eq!(session.marks.len(), 1);
    assert_eq!(session.unmark(), None);
    assert_eq!(session.marks.len(), 1);

    session.mark(&DateTime::now().plus_hours(1)).unwrap();
    assert_eq!(session.marks.len(), 2);

    let mark_first = session.marks.first().unwrap().clone();
    let mark_last = session.marks.last().unwrap().clone();
    assert_ne!(mark_first, mark_last);
    assert_eq!(session.unmark(), Some(mark_last));
    assert_eq!(session.marks.len(), 1);
    assert_eq!(session.marks.last().unwrap(), &mark_first);
}

#[test]
fn session_tag_works() {
    let mut session = Session::new(&config(), &DateTime::now());
    // To have at least 2 marks.
    session.mark(&DateTime::now()).unwrap();
    let mut clone = session.clone();
    session.tag(&Tag::from_text("rust").unwrap());
    clone.marks.last_mut().unwrap().tags.push(Tag::from_text("rust").unwrap().clone());
    assert_eq!(session, clone);
}

#[test]
fn session_untag_works() {
    let mut session = Session::new(&config(), &DateTime::now());
    // To have at least 2 marks.
    session.mark(&DateTime::now()).unwrap();
    let clone = session.clone();
    session.tag(&Tag::from_text("rust").unwrap());
    session.untag(&Tag::from_text("rust").unwrap());
    assert_eq!(session, clone);
}

#[test]
fn session_write_works() {
    let mut session = Session::new(&config(), &DateTime::now());
    // To have at least 2 marks.
    session.mark(&DateTime::now()).unwrap();
    let mut clone = session.clone();
    session.write("hello").unwrap();
    clone.marks.iter_mut().last().unwrap().write("hello");
    assert_eq!(session, clone);
}

#[test]
fn session_write_errors_when_there_is_content() {
    let mut session = Session::new(&config(), &DateTime::now());
    session.write("Some content.").unwrap();
    assert!(session.write("Some other content.").is_err());
}

#[test]
fn session_from_file_works() {
    let date = now_chrono();
    let mark_first_dt = dt(&date.with_hour(5).unwrap());
    let mark_first = Mark::new(&mark_first_dt);
    let mark_second_dt = dt(&date.with_hour(5).unwrap().with_minute(23).unwrap());
    let mut mark_second = Mark::new(&mark_second_dt);
    mark_second.attribute = Attribute::Stop;

    let contents = format!(
        "\
            {SESSION_HEADING_PREFIX}{SESSION_TITLE}\n\
            \n\
            {MARKS_HEADING}\n\
            \n\
            {MARK_HEADING_PREFIX}{}\n\
            \n\
            {MARK_HEADING_PREFIX}{}\n\
            \n\
            {LABEL_END}\n\
            ",
        mark_first_dt.to_formatted(),
        mark_second_dt.to_formatted(),
    );
    let file = SessionFile::build("", &contents).unwrap();
    let session = Session { path: file.path.clone(), marks: vec![mark_first, mark_second] };

    assert_eq!(Session::from_file(&file).unwrap(), session);
}

#[test]
fn session_from_file_fails_when_there_is_no_mark() {
    let contents = format!(
        "\
            {SESSION_HEADING_PREFIX}{SESSION_TITLE}\n\
            \n\
            {MARKS_HEADING}\n\
            ",
    );
    let file = SessionFile::build("sessions", &contents).unwrap();
    assert!(Session::from_file(&file).is_err());
}

#[test]
fn session_to_file_works() {
    let date = now_chrono();
    let mark_first_dt = dt(&date.with_hour(5).unwrap());
    let mark_first = Mark::new(&mark_first_dt);
    let mark_second_dt = dt(&date.with_hour(5).unwrap().with_minute(44).unwrap());
    let mark_second = Mark {
        date: mark_second_dt,
        attribute: Attribute::Nothing,
        tags: Vec::new(),
        contents: String::from("I am the second mark!\nHi!\n"),
    };
    let session = Session {
        path: format!("sessions/{}.md", mark_first_dt.to_formatted()),
        marks: vec![mark_first, mark_second],
    };
    let file = SessionFile::build(
        &session.path,
        &format!(
            "\
                {SESSION_HEADING_PREFIX}{SESSION_TITLE}\n\
                \n\
                {MARKS_HEADING}\n\
                \n\
                {MARK_HEADING_PREFIX}{}\n\
                \n\
                {MARK_HEADING_PREFIX}{}\n\
                \n\
                I am the second mark!\n\
                Hi!\n\
                ",
            mark_first_dt.to_formatted(),
            mark_second_dt.to_formatted()
        ),
    )
    .unwrap();

    assert_eq!(session.to_file().unwrap(), file);
}

#[test]
fn session_to_file_and_from_file() {
    let date = now_chrono();
    let mark_first = Mark {
        date: dt(&date.with_hour(5).unwrap().with_minute(54).unwrap()),
        attribute: Attribute::Nothing,
        tags: Vec::new(),
        contents: String::from("feat/some-branch\n\nDid a few things"),
    };
    let mark_second = Mark {
        date: dt(&date.with_hour(6).unwrap().with_minute(13).unwrap()),
        attribute: Attribute::Nothing,
        tags: Vec::new(),
        contents: String::from("feat/new-feature"),
    };
    let session = Session {
        path: format!("sessions/{}.md", DateTime::format(&mark_first.date)),
        marks: vec![mark_first, mark_second],
    };
    let file = session.to_file().unwrap();
    assert_eq!(Session::from_file(&file).unwrap(), session);
}

#[test]
fn mark_new_works() {
    let date = DateTime::now();
    let mark = Mark::new(&date);
    assert_eq!(Mark::new(&date), mark);
}

#[test]
fn mark_write_works() {
    let date = DateTime::now();
    let mut mark = Mark::new(&date);
    let mut clone = mark.clone();
    clone.contents = String::from("This is some content.");
    mark.write("This is some content.");
    assert_eq!(mark, clone);
}

#[test]
fn mark_write_overwrites_previous_content() {
    let date = DateTime::now();
    let mut mark = Mark::new(&date);
    let mut clone = mark.clone();
    clone.contents = String::from("This is some content");
    mark.write("This is some content");
    assert_eq!(mark, clone);
    clone.contents = String::from("This is overwritten content");
    mark.write("This is overwritten content");
    assert_eq!(mark, clone);
}

#[test]
fn mark_erase_works() {
    let date = DateTime::now();
    let mut mark = Mark::new(&date);
    let clone = mark.clone();
    mark.write("This is content.");
    mark.erase();
    assert_eq!(mark, clone);
}

#[test]
fn mark_from_string_works() {
    let date = DateTime::now();
    let contents = format!(
        "\
            {MARK_HEADING_PREFIX}{}\n\
            \n\
            {LABEL_END}\n\
            {LABEL_TAG} {LABEL_TAG_SURROUND}rust{LABEL_TAG_SURROUND}\n\
            {LABEL_TAG} {LABEL_TAG_SURROUND}time tracker{LABEL_TAG_SURROUND}\n\
            \n\
            This is some content.\n\
            ",
        date.to_formatted()
    );
    let mut mark = Mark {
        date,
        attribute: Attribute::Stop,
        tags: Vec::new(),
        contents: String::from("This is some content."),
    };
    tagged(&mut mark, &["rust", "time tracker"]);
    assert_eq!(Mark::from_string(&contents).unwrap(), mark);
}

#[test]
fn mark_from_string_fails_if_multiple_attributes_are_specified() {
    let date = DateTime::now();
    let contents = format!(
        "\
            {MARK_HEADING_PREFIX}{}\n\
            \n\
            {LABEL_END}\n\
            {LABEL_SKIP}\n\
            \n\
            This is some content.\n\
            ",
        date.to_formatted()
    );
    assert!(Mark::from_string(&contents).is_err());
}

#[test]
fn mark_to_string_works() {
    let date = DateTime::now();
    let mut mark = Mark {
        date,
        attribute: Attribute::Stop,
        tags: Vec::new(),
        contents: String::from("This is a content of a mark.\nHow are you?\n"),
    };
    tagged(&mut mark, &["time tracker", "rust"]);
    let output = format!(
        "\
            {MARK_HEADING_PREFIX}{}\n\
            \n\
            {LABEL_END}\n\
            {LABEL_TAG} {LABEL_TAG_SURROUND}rust{LABEL_TAG_SURROUND}\n\
            {LABEL_TAG} {LABEL_TAG_SURROUND}time tracker{LABEL_TAG_SURROUND}\n\
            \n\
            This is a content of a mark.\n\
            How are you?\
            ",
        date.to_formatted()
    );
    assert_eq!(mark.to_string(), output);
}

#[test]
fn mark_to_string_from_string_works() {
    let date = DateTime::now();

    let mark = Mark {
        date,
        attribute: Attribute::Nothing,
        tags: Vec::new(),
        contents: String::from("This is a content of a mark.\nHow are you?"),
    };
    assert_eq!(mark, Mark::from_string(&mark.to_string()).unwrap());

    let mark = Mark {
        date,
        attribute: Attribute::Stop,
        tags: Vec::new(),
        contents: String::from("This is a content of a mark.\nHow are you?"),
    };
    assert_eq!(mark, Mark::from_string(&mark.to_string()).unwrap());

    let mut mark = Mark {
        date,
        attribute: Attribute::Nothing,
        tags: Vec::new(),
        contents: String::from("This is a content of a mark.\nHow are you?"),
    };
    tagged(&mut mark, &["rust", "time tracker"]);
    assert_eq!(mark, Mark::from_string(&mark.to_string()).unwrap());

    let mut mark = Mark {
        date,
        attribute: Attribute::Stop,
        tags: Vec::new(),
        contents: String::from("This is a content of a mark.\nHow are you?"),
    };
    tagged(&mut mark, &["rust", "time tracker"]);
    assert_eq!(mark, Mark::from_string(&mark.to_string()).unwrap());
}
