use time_tracker::date_time::DateTime;
use time_tracker::document::SessionFile;
use time_tracker::label::{Attribute, Tag, TagError};
use time_tracker::mark::{DecodeError, Mark};
use time_tracker::session::Session;

fn at(text: &str) -> DateTime {
    DateTime::parse(text).unwrap()
}

fn mark(date: &str, attribute: Attribute, tags: &[&str], contents: &str) -> Mark {
    let mut mark = Mark::new(&at(date));
    mark.attribute = attribute;
    for tag in tags {
        mark.tag(&Tag::from_text(tag).unwrap());
    }
    mark.write(contents);
    mark
}

fn session(marks: Vec<Mark>) -> Session {
    Session::from_marks("sessions/2002.md", marks).unwrap()
}

fn decode(text: &str) -> Result<Session, DecodeError> {
    Session::from_file(&SessionFile::build("sessions/2002.md", text)?)
}

#[test]
fn a_session_comes_back_from_its_document() {
    let written = session(vec![
        mark("2002-05-08T12:00:00+00:00", Attribute::Nothing, &[], ""),
        mark("2002-05-08T13:00:00+02:00", Attribute::Skip, &["rust", "a b"], "one line"),
        mark("2002-05-08T13:00:00+02:00", Attribute::Nothing, &["z"], ""),
        mark(
            "2002-05-08T14:30:10-05:00",
            Attribute::Nothing,
            &[],
            "feat/branch\n\n  indented\n#### deeper heading\n- a list item",
        ),
        mark("2002-05-09T00:00:00+00:00", Attribute::Stop, &[], "- a list item after a label"),
    ]);
    let file = written.to_file().unwrap();
    assert_eq!(file.path, "sessions/2002.md");
    assert_eq!(Session::from_file(&file).unwrap(), written);
}

#[test]
fn a_document_is_written_in_canonical_form() {
    let written = session(vec![
        mark("2002-05-08T12:00:00+00:00", Attribute::Nothing, &[], ""),
        mark("2002-05-08T13:00:00+00:00", Attribute::Skip, &["time tracker", "rust"], "notes\nmore"),
        mark("2002-05-08T14:00:00+00:00", Attribute::Stop, &[], ""),
    ]);
    let text = "# Session\n\
        \n\
        ## Marks\n\
        \n\
        ### 2002-05-08T12:00:00+00:00\n\
        \n\
        ### 2002-05-08T13:00:00+00:00\n\
        \n\
        - skip\n\
        - tag `rust`\n\
        - tag `time tracker`\n\
        \n\
        notes\n\
        more\n\
        \n\
        ### 2002-05-08T14:00:00+00:00\n\
        \n\
        - end";
    assert_eq!(written.to_file().unwrap().contents, text);
}

#[test]
fn a_canonical_document_is_written_back_unchanged() {
    let text = "# Session\n\n## Marks\n\n### 2002-05-08T12:00:00+00:00\n\n- tag `a`\n- tag `b`\n\nnotes\n\n### 2002-05-08T13:00:00+00:00\n\n- end";
    let read = decode(text).unwrap();
    assert_eq!(read.to_file().unwrap().contents, text);
    let again = Session::from_file(&read.to_file().unwrap()).unwrap();
    assert_eq!(again, read);
}

#[test]
fn notes_are_trimmed_when_written() {
    let written = session(vec![mark(
        "2002-05-08T12:00:00+00:00",
        Attribute::Nothing,
        &[],
        "\n\n  notes  \n\n",
    )]);
    let read = Session::from_file(&written.to_file().unwrap()).unwrap();
    assert_eq!(read.marks[0].contents, "notes");
    assert_eq!(Mark::from_string(&written.marks[0].to_string()).unwrap().contents, "notes");
}

#[test]
fn two_attribute_lines_are_refused() {
    let text = "# Session\n\n## Marks\n\n### 2002-05-08T12:00:00+00:00\n\n- end\n- skip\n";
    assert_eq!(decode(text), Err(DecodeError::Attributes));
    let text = "# Session\n\n## Marks\n\n### 2002-05-08T12:00:00+00:00\n\n- end\n- end\n";
    assert_eq!(decode(text), Err(DecodeError::Attributes));
    let block = "### 2002-05-08T12:00:00+00:00\n- skip\n- tag `a`\n- end";
    assert_eq!(Mark::from_string(block), Err(DecodeError::Attributes));
}

#[test]
fn each_decode_error_has_its_input() {
    assert_eq!(decode(""), Err(DecodeError::Header));
    assert_eq!(decode("Session\n\n## Marks\n"), Err(DecodeError::Header));
    assert_eq!(decode("#Session\n\n## Marks\n"), Err(DecodeError::Header));
    assert_eq!(decode("# Session\n\n### 2002-05-08T12:00:00+00:00"), Err(DecodeError::MarksSection));
    assert_eq!(decode("# Session\n\n## Marks here\n"), Err(DecodeError::MarksSection));
    assert_eq!(decode("# Session\n\n## Marks\n\n### yesterday\n"), Err(DecodeError::MarkDate));
    assert_eq!(decode("# Session\n\n## Marks\n\n### \n\nnotes"), Err(DecodeError::MarkDate));
    // Trimmed, the last line opens no mark.
    assert_eq!(decode("# Session\n\n## Marks\n\n### \n"), Err(DecodeError::NoMarks));
    assert_eq!(
        decode("# Session\n\n## Marks\n\n### 2002-05-08T12:00:00+00:00\n- done\n"),
        Err(DecodeError::Label)
    );
    assert_eq!(
        decode("# Session\n\n## Marks\n\n### 2002-05-08T12:00:00+00:00\n- tag ``\n"),
        Err(DecodeError::Label)
    );
    assert_eq!(
        decode("# Session\n\n## Marks\n\n### 2002-05-08T12:00:00+00:00\n- tag `a`b`\n"),
        Err(DecodeError::Label)
    );
    assert_eq!(decode("# Session\n\n## Marks\n"), Err(DecodeError::NoMarks));
    assert_eq!(decode("# Session\n\n## Marks\n\nsome text\n"), Err(DecodeError::NoMarks));
    // The first block that is no mark decides.
    assert_eq!(
        decode("# Session\n\n## Marks\n\n### nothing\n\n### 2002-05-08T12:00:00+00:00\n- x\n"),
        Err(DecodeError::MarkDate)
    );
    assert_eq!(Mark::from_string("2002-05-08 12:00:00 +00:00"), Err(DecodeError::MarkDate));
    assert_eq!(Mark::from_string(""), Err(DecodeError::MarkDate));
}

#[test]
fn tags_are_a_set() {
    let block = "### 2002-05-08T12:00:00+00:00\n\n- tag `b`\n- tag `a`\n- tag `b`\n- tag ` a `\n\nnotes";
    let read = Mark::from_string(block).unwrap();
    assert_eq!(read.tags, vec![Tag::from_text("a").unwrap(), Tag::from_text("b").unwrap()]);
    assert_eq!(read.contents, "notes");
    assert_eq!(
        read.to_string(),
        "### 2002-05-08T12:00:00+00:00\n\n- tag `a`\n- tag `b`\n\nnotes"
    );
}

#[test]
fn only_the_section_of_the_marks_is_read() {
    let text = "# Session\n\
        \n\
        ## Notes\n\
        \n\
        ### 2001-01-01T00:00:00+00:00\n\
        \n\
        ## Marks\n\
        \n\
        a line before the first mark\n\
        ### 2002-05-08T12:00:00+00:00\n\
        \n\
        first\n\
        \n\
        ## Other\n\
        \n\
        ### 2003-01-01T00:00:00+00:00\n\
        # End\n\
        ### 2004-01-01T00:00:00+00:00\n";
    let read = decode(text).unwrap();
    assert_eq!(read.marks.len(), 1);
    assert_eq!(read.marks[0].date, at("2002-05-08T12:00:00+00:00"));
    assert_eq!(read.marks[0].contents, "first");
}

#[test]
fn a_document_with_carriage_returns_is_read() {
    let text = "# Session\r\n\r\n## Marks\r\n\r\n### 2002-05-08T12:00:00+00:00\r\n\r\n- end\r\n- tag `a`\r\n\r\nnotes\r\n";
    let read = decode(text).unwrap();
    assert_eq!(read.marks.len(), 1);
    assert_eq!(read.marks[0].attribute, Attribute::Stop);
    assert_eq!(read.marks[0].tags, vec![Tag::from_text("a").unwrap()]);
    assert_eq!(read.marks[0].contents, "notes");
}

#[test]
fn the_date_of_a_heading_is_read_in_either_form() {
    let pretty = Mark::from_string("### 2002-05-08 12:00:00 +02:00").unwrap();
    let canonical = Mark::from_string("###   2002-05-08T12:00:00+02:00  ").unwrap();
    assert_eq!(pretty, canonical);
    assert_eq!(pretty.date.offset, 7200);
    assert_eq!(pretty.date.millis, 1_020_852_000_000);
}

#[test]
fn sections_follow_the_levels_of_headings() {
    let text = "# Title\nintro\n## A\na1\n### A.1\na2\n## B\nb1\n#### deep\nb2\n# Next\nn1";
    assert_eq!(SessionFile::get_heading_with_contents("## A", text), "## A\na1\n### A.1\na2");
    assert_eq!(SessionFile::get_heading_with_contents(" ## B ", text), "## B\nb1\n#### deep\nb2");
    assert_eq!(SessionFile::get_heading_with_contents("### A.1", text), "### A.1\na2");
    assert_eq!(
        SessionFile::get_heading_with_contents("# Title", text),
        "# Title\nintro\n## A\na1\n### A.1\na2\n## B\nb1\n#### deep\nb2"
    );
    assert_eq!(SessionFile::get_heading_with_contents("## C", text), "");
    assert_eq!(SessionFile::get_heading_level(""), 0);
    assert_eq!(SessionFile::get_heading_level("text"), 0);
    assert_eq!(SessionFile::get_heading_level("  ### x"), 3);
    assert_eq!(SessionFile::get_heading_level("###"), 3);
}

#[test]
fn build_trims_the_document() {
    let file = SessionFile::build("p", "\n\n# Session\n## Marks\n\n").unwrap();
    assert_eq!(file.contents, "# Session\n## Marks");
    assert_eq!(file.path, "p");
    assert_eq!(SessionFile::build("p", "# Session\n  ## Marks  \n").unwrap().path, "p");
}

#[test]
fn tag_texts_are_checked() {
    assert_eq!(Tag::from_text("  rust  ").unwrap().text, "rust");
    assert_eq!(Tag::from_text("  rust  ").unwrap().text(), "rust");
    assert_eq!(Tag::from_text("   "), Err(TagError::Empty));
    assert_eq!(Tag::from_text("a`b"), Err(TagError::Backtick));
    assert_eq!(Tag::from_line("- tag `  rust `").unwrap().text, "rust");
    assert_eq!(Tag::from_line("- tag `"), Err(TagError::Malformed));
    assert_eq!(Tag::from_line("- tag ``"), Err(TagError::Empty));
    assert_eq!(Tag::from_line("- tag ` `"), Err(TagError::Empty));
    assert_eq!(Tag::from_line("- tag `a`b`"), Err(TagError::Backtick));
    assert_eq!(Tag::from_line(" - tag `a`"), Err(TagError::Malformed));
    assert_eq!(Attribute::from_line("  - end  "), Attribute::Stop);
    assert_eq!(Attribute::from_text("end"), Some(Attribute::Stop));
    assert_eq!(Attribute::from_text(" skip "), Some(Attribute::Skip));
    assert_eq!(Attribute::from_text("stop"), None);
}

#[test]
fn canonical_sessions_come_back() {
    let written = session(vec![
        mark("2002-05-08T12:00:00+00:00", Attribute::Nothing, &[], ""),
        mark("2002-05-08T13:00:00+02:00", Attribute::Skip, &["rust", "a b"], "one line"),
        mark("1999-12-31T23:59:59-11:30", Attribute::Nothing, &[], "#### deep\n###close\n - x"),
        mark("2002-05-09T00:00:00+00:00", Attribute::Stop, &["t"], "- item\n\n  ## Marks"),
    ]);
    for mark in &written.marks {
        assert!(mark.is_canonical());
    }
    assert!(written.is_canonical());
    assert_eq!(Session::from_file(&written.to_file().unwrap()).unwrap(), written);
}

#[test]
fn what_is_not_canonical_is_told_apart() {
    let date = "2002-05-08T12:00:00+00:00";
    let lossy = |contents: &str| {
        let written = session(vec![mark(date, Attribute::Nothing, &[], contents)]);
        assert!(!written.is_canonical());
        let read = Session::from_file(&written.to_file().unwrap());
        assert!(read != Ok(written));
    };
    lossy(" notes");
    lossy("notes\n");
    lossy("### 2002-05-08T13:00:00+00:00");
    lossy("notes\n### not a date");
    lossy("notes\n# Title");
    lossy("notes\n## Other\nmore");
    lossy("- end");
    lossy("- a list item");
    // With a label before them, notes may begin with a list item.
    let labelled = session(vec![mark(date, Attribute::Nothing, &["t"], "- a list item")]);
    assert!(labelled.is_canonical());
    // A tag of two lines.
    let mut split = session(vec![mark(date, Attribute::Nothing, &[], "")]);
    split.tag(&Tag::from_text("a\nb").unwrap());
    assert!(!split.is_canonical());
    assert!(Session::from_file(&split.to_file().unwrap()) != Ok(split));
    // A date with a part below the second, and an offset with seconds.
    let mut fine = session(vec![mark(date, Attribute::Nothing, &[], "")]);
    fine.marks[0].date = DateTime::new(1_020_859_200_500, 0).unwrap();
    assert!(!fine.is_canonical());
    fine.marks[0].date = DateTime::new(1_020_859_200_000, 3601).unwrap();
    assert!(!fine.is_canonical());
    fine.marks[0].date = DateTime::new(1_020_859_200_000, 3600).unwrap();
    assert!(fine.is_canonical());
}
