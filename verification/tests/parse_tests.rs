use hunksplit::range::{LineRange, ParseError};

#[test]
fn test_line_range_parse_valid() {
    let range = LineRange::parse("src/main.rs:10-20").unwrap();
    assert_eq!(range.path, "src/main.rs");
    assert_eq!(range.start, 10);
    assert_eq!(range.end, 20);
}

#[test]
fn test_line_range_parse_with_colons_in_path() {
    let range = LineRange::parse("C:/Users/test/file.rs:5-15").unwrap();
    assert_eq!(range.path, "C:/Users/test/file.rs");
    assert_eq!(range.start, 5);
    assert_eq!(range.end, 15);
}

#[test]
fn test_line_range_parse_single_line() {
    let range = LineRange::parse("test.txt:42-42").unwrap();
    assert_eq!(range.path, "test.txt");
    assert_eq!(range.start, 42);
    assert_eq!(range.end, 42);
}

#[test]
fn test_line_range_parse_invalid_format() {
    assert!(LineRange::parse("src/main.rs").is_err());
    assert!(LineRange::parse("src/main.rs:10").is_err());
    assert!(LineRange::parse("src/main.rs:10-20-30").is_err());
}

#[test]
fn test_line_range_parse_invalid_numbers() {
    assert!(LineRange::parse("src/main.rs:abc-def").is_err());
    assert!(LineRange::parse("src/main.rs:10-abc").is_err());
    assert!(LineRange::parse("src/main.rs:0-10").is_err());
}

#[test]
fn test_line_range_parse_inverted_range() {
    assert!(LineRange::parse("src/main.rs:20-10").is_err());
}

#[test]
fn parse_error_variants_are_distinct() {
    assert_eq!(LineRange::parse("no-colon-here").unwrap_err(), ParseError::MissingColon);
    assert_eq!(LineRange::parse("file.txt:10").unwrap_err(), ParseError::BadRangePart);
    assert_eq!(LineRange::parse("file.txt:10-20-30").unwrap_err(), ParseError::BadRangePart);
    assert_eq!(LineRange::parse("file.txt:abc-def").unwrap_err(), ParseError::BadStartNumber);
    assert_eq!(LineRange::parse("file.txt:10-abc").unwrap_err(), ParseError::BadEndNumber);
    assert_eq!(LineRange::parse("file.txt:0-10").unwrap_err(), ParseError::ZeroLineNumber);
    assert_eq!(LineRange::parse("file.txt:10-0").unwrap_err(), ParseError::ZeroLineNumber);
    assert_eq!(LineRange::parse("file.txt:20-10").unwrap_err(), ParseError::InvertedRange);
}

#[test]
fn parse_rejects_numbers_too_large_for_the_machine() {
    assert_eq!(
        LineRange::parse("file.txt:99999999999999999999999999-99999999999999999999999999999")
            .unwrap_err(),
        ParseError::BadStartNumber
    );
    assert_eq!(
        LineRange::parse("file.txt:1-99999999999999999999999999999").unwrap_err(),
        ParseError::BadEndNumber
    );
}

#[test]
fn parse_accepts_leading_plus_and_leading_zeros() {
    let range = LineRange::parse("file.txt:+07-020").unwrap();
    assert_eq!(range.start, 7);
    assert_eq!(range.end, 20);
    assert_eq!(LineRange::parse("file.txt:+-5").unwrap_err(), ParseError::BadStartNumber);
}

#[test]
fn parse_with_empty_path_and_empty_range_part() {
    let range = LineRange::parse(":3-4").unwrap();
    assert_eq!(range.path, "");
    assert_eq!(range.start, 3);
    assert_eq!(range.end, 4);
    assert_eq!(LineRange::parse("file.txt:").unwrap_err(), ParseError::BadRangePart);
}

#[test]
fn display_renders_the_canonical_form() {
    let range = LineRange { path: String::from("src/lib.rs"), start: 3, end: 117 };
    assert_eq!(range.display(), "src/lib.rs:3-117");
}

#[test]
fn display_then_parse_round_trips() {
    let range = LineRange { path: String::from("a:b-c.txt"), start: 9, end: 10050 };
    let rendered = range.display();
    assert_eq!(rendered, "a:b-c.txt:9-10050");
    let back = LineRange::parse(&rendered).unwrap();
    assert_eq!(back.path, range.path);
    assert_eq!(back.start, range.start);
    assert_eq!(back.end, range.end);
}
