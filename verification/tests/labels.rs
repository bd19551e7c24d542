use time_tracker::label::{Attribute, Tag};

#[test]
fn attribute_from_line_works() {
    assert_eq!(Attribute::from_line("- end"), Attribute::Stop);
    assert_eq!(Attribute::from_line("- skip"), Attribute::Skip);
    assert_eq!(Attribute::from_line("- tag"), Attribute::Nothing);
    assert_eq!(Attribute::from_line("- something else"), Attribute::Nothing);
    assert_eq!(Attribute::from_line("something else"), Attribute::Nothing);
}

#[test]
fn attribute_to_line_works() {
    assert_eq!(Attribute::Stop.to_line(), "- end");
    assert_eq!(Attribute::Skip.to_line(), "- skip");
    assert_eq!(Attribute::Nothing.to_line(), "");
}

#[test]
fn tag_from_text_works() {
    assert_eq!(Tag::from_text("rust").unwrap(), Tag { text: String::from("rust") });
    assert!(Tag::from_text("").is_err());
    assert!(Tag::from_text("`").is_err());
}

#[test]
fn tag_from_line_works() {
    assert_eq!(Tag::from_line("- tag `rust`").unwrap(), Tag { text: String::from("rust") });
    assert!(Tag::from_line("rust").is_err());
    assert!(Tag::from_line("- tag rust").is_err());
    assert!(Tag::from_line("- tag `rust").is_err());
    assert!(Tag::from_line("- tag rust`").is_err());
    assert!(Tag::from_line("`rust").is_err());
    assert!(Tag::from_line("rust`").is_err());
}

#[test]
fn tag_to_line_works() {
    assert_eq!(Tag::from_text("rust").unwrap().to_line(), "- tag `rust`");
}
