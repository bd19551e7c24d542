use time_tracker::action::ActionError;
use time_tracker::aggregator::{Aggregator, AggregatorError};
use time_tracker::config::{part_under_home, Config};
use time_tracker::date_time::{DateTime, InputError};
use time_tracker::label::{Attribute, Tag, TagError};
use time_tracker::mark::{DecodeError, Mark};
use time_tracker::round_trip::{date_is_written, is_date_read, is_heading_text};
use time_tracker::session::{Session, StateError};

fn at(text: &str) -> DateTime {
    DateTime::parse(text).unwrap()
}

fn lines(text: &str) -> Vec<Vec<char>> {
    text.split('\n').map(|line| line.chars().collect()).collect()
}

#[test]
fn a_mark_holds_a_whole_second() {
    let fine = DateTime::new(1_020_859_200_750, 3600).unwrap();
    let whole = DateTime::new(1_020_859_200_000, 3600).unwrap();
    assert_eq!(fine.truncated(), whole);
    assert_eq!(whole.truncated(), whole);
    assert_eq!(DateTime::new(-1, 0).unwrap().truncated(), DateTime::new(-1000, 0).unwrap());
    assert_eq!(Mark::new(&fine).date, whole);
    let mut session = Session::at_path(String::from("p"), &fine);
    assert_eq!(session.start(), whole);
    session.mark(&fine.plus_hours(1)).unwrap();
    assert_eq!(session.end(), whole.plus_hours(1));
    session.remark(&fine.plus_hours(2));
    assert_eq!(session.end(), whole.plus_hours(2));
    session.stop(&fine.plus_hours(3)).unwrap();
    assert_eq!(session.end(), whole.plus_hours(3));
    assert!(session.is_wf());
    assert!(session.is_canonical());
    session.marks[0].date = fine;
    assert!(!session.marks[0].is_wf());
    assert!(!session.is_wf());
}

#[test]
fn a_date_read_from_a_heading_is_cut_to_the_second() {
    let read = Mark::from_string("### 2002-05-08T12:00:00.750+00:00\n\nnotes").unwrap();
    assert_eq!(read.date, at("2002-05-08T12:00:00+00:00"));
    assert!(read.is_wf());
    assert!(read.is_canonical());
    assert_eq!(read.to_string(), "### 2002-05-08T12:00:00+00:00\n\nnotes");
    assert_eq!(Mark::from_string(&read.to_string()).unwrap(), read);
}

#[test]
fn a_block_is_written_around_the_text_of_its_date() {
    let mut mark = Mark::new(&at("2002-05-08T12:00:00+00:00"));
    assert_eq!(mark.block_chars("DATE").iter().collect::<String>(), "### DATE");
    mark.attribute = Attribute::Stop;
    mark.tag(&Tag::from_text("time tracker").unwrap());
    mark.tag(&Tag::from_text("rust").unwrap());
    mark.write("This is a content of a mark.\nHow are you?\n");
    assert_eq!(
        mark.block_chars("DATE").iter().collect::<String>(),
        "### DATE\n\n- end\n- tag `rust`\n- tag `time tracker`\n\nThis is a content of a mark.\nHow are you?"
    );
    assert_eq!(
        mark.to_string(),
        "### 2002-05-08T12:00:00+00:00\n\n- end\n- tag `rust`\n- tag `time tracker`\n\nThis is a content of a mark.\nHow are you?"
    );
}

#[test]
fn the_lines_after_a_heading_are_read_with_the_date_given() {
    let date = at("2002-05-08T12:00:00+00:00");
    let ls = lines("ignored\n\n- skip\n- tag `a`\n\nnotes\nmore\n\nignored");
    let read = Mark::from_dated_lines(Some(date), &ls, 1, 8).unwrap();
    assert_eq!(read.date, date);
    assert_eq!(read.attribute, Attribute::Skip);
    assert_eq!(read.tags, vec![Tag::from_text("a").unwrap()]);
    assert_eq!(read.contents, "notes\nmore");
    assert_eq!(Mark::from_dated_lines(None, &ls, 1, 8), Err(DecodeError::MarkDate));
    assert_eq!(Mark::from_dated_lines(Some(date), &ls, 1, 1).unwrap(), Mark::new(&date));
    let bad = lines("- end\n- end");
    assert_eq!(Mark::from_dated_lines(Some(date), &bad, 0, 2), Err(DecodeError::Attributes));
    assert_eq!(Mark::from_dated_lines(None, &bad, 0, 2), Err(DecodeError::MarkDate));
}

#[test]
fn a_new_session_is_kept_under_the_name_of_its_start() {
    let date = at("2002-05-08T12:00:00+02:00");
    assert_eq!(Session::document_name(&date), "2002-05-08T12:00:00+02:00.md");
    let session = Session::at_path(String::from("notes/x.md"), &date);
    assert_eq!(session.path, "notes/x.md");
    assert_eq!(session.marks, vec![Mark::new(&date)]);
    assert!(session.is_active());
    let config = Config { sessions_path: String::from("notes") };
    let joined = std::path::Path::new("notes").join("2002-05-08T12:00:00+02:00.md");
    assert_eq!(Session::new(&config, &date).path, joined.to_str().unwrap());
    assert_eq!(Session::new(&config, &date).marks, session.marks);
}

#[test]
fn the_part_under_the_home_directory_is_told() {
    assert_eq!(part_under_home("~/notes/sessions"), Some(String::from("notes/sessions")));
    assert_eq!(part_under_home("  ~/notes  "), Some(String::from("notes")));
    assert_eq!(part_under_home("~/"), Some(String::new()));
    assert_eq!(part_under_home("~notes"), None);
    assert_eq!(part_under_home("notes/~/x"), None);
    assert_eq!(part_under_home(""), None);
}

fn document(path: &str, text: &str) -> (String, String) {
    (String::from(path), String::from(text))
}

#[test]
fn an_aggregator_is_made_from_documents() {
    let first = "# Session\n\n## Marks\n\n### 2002-05-06T09:00:00+00:00\n\n### 2002-05-06T10:00:00+00:00\n\n- end";
    let second = "# Session\n\n## Marks\n\n### 2002-05-08T12:00:00+00:00\n\nnotes";
    let made = Aggregator::from_documents(&vec![document("a.md", first), document("b.md", second)])
        .unwrap();
    assert_eq!(
        made.sessions,
        vec![
            Session::from_text("a.md", first).unwrap(),
            Session::from_text("b.md", second).unwrap()
        ]
    );
    assert_eq!(made.sessions[1].path, "b.md");
    assert!(made.is_wf());
    assert_eq!(Aggregator::from_documents(&Vec::new()), Err(AggregatorError::Empty));
    // The first document that is no session decides.
    let docs = vec![
        document("a.md", first),
        document("b.md", "# Session\n\n## Marks\n"),
        document("c.md", "no heading"),
    ];
    assert_eq!(
        Aggregator::from_documents(&docs),
        Err(AggregatorError::Document(DecodeError::NoMarks))
    );
    let docs = vec![document("c.md", "no heading"), document("a.md", first)];
    assert_eq!(
        Aggregator::from_documents(&docs),
        Err(AggregatorError::Document(DecodeError::Header))
    );
}

#[test]
fn a_summary_is_made_around_the_texts_of_its_dates() {
    let start = at("2002-05-08T12:00:00+00:00");
    let mut session = Session::at_path(String::from("p"), &start);
    session.mark(&start.plus_hours(1)).unwrap();
    session.write("notes").unwrap();
    let aggregator = Aggregator::from_sessions(vec![session]).unwrap();
    let now = start.plus_hours(3);
    let given = aggregator.summary_given(&now, "START", "LAST").unwrap();
    assert!(given.active);
    assert_eq!(given.start, "START");
    assert_eq!(given.week_time, "3h 0m 0s");
    assert_eq!(given.session_time, "3h 0m 0s");
    assert_eq!(given.last_mark_age, "2h 0m 0s");
    assert_eq!(given.last_mark_contents, "### LAST\n\nnotes");
    let made = aggregator.summary_at(&now).unwrap();
    assert_eq!(made.start, "2002-05-08T12:00:00+00:00");
    assert_eq!(made.last_mark_contents, "### 2002-05-08T13:00:00+00:00\n\nnotes");
    assert_eq!(aggregator.summary_given(&start.plus_hours(-1), "START", "LAST"), None);
}

#[test]
fn every_error_says_what_is_wrong() {
    assert_eq!(DecodeError::Header.message(), "couldn't parse session file");
    assert_eq!(DecodeError::MarksSection.message(), "couldn't parse session file");
    assert_eq!(DecodeError::MarkDate.message(), "couldn't parse mark heading");
    assert_eq!(DecodeError::Label.message(), "couldn't parse label");
    assert_eq!(
        DecodeError::Attributes.message(),
        "multiple attributes per mark are not allowed"
    );
    assert_eq!(
        DecodeError::NoMarks.message(),
        "there must be at least one mark for a session to be valid"
    );
    assert_eq!(StateError::Ended.message(), "session already ended");
    assert_eq!(StateError::NotEmpty.message(), "current mark already contains some text");
    assert_eq!(TagError::Empty.message(), "tag cannot be empty");
    assert_eq!(TagError::Backtick.message(), "invalid character \"`\"");
    assert_eq!(TagError::Malformed.message(), "couldn't parse tag");
    assert_eq!(InputError::Malformed.message(), "failed to parse provided text");
    assert_eq!(InputError::OutOfRange.message(), "the date is out of range");
    assert_eq!(ActionError::TooManyArguments.message(), "too many arguments");
    assert_eq!(ActionError::NoAttribute.message(), "no attribute specified");
    assert_eq!(ActionError::NoLabel.message(), "no label specified");
    assert_eq!(ActionError::NoText.message(), "no text specified");
    assert_eq!(
        ActionError::Date(InputError::Malformed).message(),
        "failed to parse provided text"
    );
    assert_eq!(ActionError::Attribute.message(), "unrecognized attribute");
    assert_eq!(ActionError::Tag(TagError::Empty).message(), "tag cannot be empty");
    assert_eq!(ActionError::Branch.message(), "branch name is empty");
    assert_eq!(ActionError::Unrecognized.message(), "unrecognized command");
    assert_eq!(AggregatorError::Empty.message(), "session directory is empty");
    assert_eq!(
        AggregatorError::Document(DecodeError::MarkDate).message(),
        "couldn't parse mark heading"
    );
}

#[test]
fn a_date_survives_where_its_text_reads_back() {
    let text = |t: &str| t.chars().collect::<Vec<char>>();
    assert!(is_heading_text(&text("2002-05-08T12:00:00+00:00")));
    assert!(!is_heading_text(&text("")));
    assert!(!is_heading_text(&text("2002-05-08T12:00:00+00:00 ")));
    assert!(!is_heading_text(&text("2002-05-08T12:00:00\n+00:00")));
    let date = at("2002-05-08T12:00:00+02:00");
    assert!(is_date_read(&date, Some(date)));
    assert!(!is_date_read(&date, Some(date.plus_seconds(1))));
    assert!(!is_date_read(&date, DateTime::new(date.millis, 0)));
    assert!(!is_date_read(&date, None));
    assert!(date_is_written(&date));
    assert!(!date_is_written(&date.plus_milli(1)));
}
