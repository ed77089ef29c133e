use hunksplit::partition::{extract_complement_lines, extract_lines_from_content};
use hunksplit::range::LineRange;

fn range(path: &str, start: usize, end: usize) -> LineRange {
    LineRange { path: path.to_string(), start, end }
}

#[test]
fn test_extract_lines_simple() {
    let content = b"line 1\nline 2\nline 3\nline 4\nline 5";
    let ranges = vec![range("test.txt", 2, 4)];

    let result = extract_lines_from_content(content, &ranges, "test.txt");
    let result_str = String::from_utf8(result).unwrap();

    assert_eq!(result_str, "line 2\nline 3\nline 4");
}

#[test]
fn test_extract_lines_multiple_ranges() {
    let content = b"line 1\nline 2\nline 3\nline 4\nline 5\nline 6";
    let ranges = vec![range("test.txt", 1, 2), range("test.txt", 5, 6)];

    let result = extract_lines_from_content(content, &ranges, "test.txt");
    let result_str = String::from_utf8(result).unwrap();

    assert_eq!(result_str, "line 1\nline 2\nline 5\nline 6");
}

#[test]
fn test_extract_lines_no_matching_file() {
    let content = b"line 1\nline 2\nline 3";
    let ranges = vec![range("other.txt", 1, 2)];

    let result = extract_lines_from_content(content, &ranges, "test.txt");

    assert_eq!(result.len(), 0);
}

#[test]
fn test_extract_lines_out_of_bounds() {
    let content = b"line 1\nline 2\nline 3";
    let ranges = vec![range("test.txt", 2, 10)];

    let result = extract_lines_from_content(content, &ranges, "test.txt");
    let result_str = String::from_utf8(result).unwrap();

    // Should only get lines 2-3 (not fail on out of bounds)
    assert_eq!(result_str, "line 2\nline 3");
}

#[test]
fn test_extract_complement_lines_simple() {
    let content = b"line 1\nline 2\nline 3\nline 4\nline 5";
    let ranges = vec![range("test.txt", 2, 4)];

    let result = extract_complement_lines(content, &ranges, "test.txt");
    let result_str = String::from_utf8(result).unwrap();

    assert_eq!(result_str, "line 1\nline 5");
}

#[test]
fn test_extract_complement_lines_multiple_ranges() {
    let content = b"line 1\nline 2\nline 3\nline 4\nline 5\nline 6";
    let ranges = vec![range("test.txt", 2, 3), range("test.txt", 5, 5)];

    let result = extract_complement_lines(content, &ranges, "test.txt");
    let result_str = String::from_utf8(result).unwrap();

    assert_eq!(result_str, "line 1\nline 4\nline 6");
}

#[test]
fn test_extract_complement_lines_no_matching_file() {
    let content = b"line 1\nline 2\nline 3";
    let ranges = vec![range("other.txt", 1, 2)];

    let result = extract_complement_lines(content, &ranges, "test.txt");

    // Should return all content since no ranges apply to this file
    assert_eq!(result, content);
}

#[test]
fn test_extract_complement_all_lines_selected() {
    let content = b"line 1\nline 2\nline 3";
    let ranges = vec![range("test.txt", 1, 3)];

    let result = extract_complement_lines(content, &ranges, "test.txt");
    let result_str = String::from_utf8(result).unwrap();

    // Should be empty string
    assert_eq!(result_str, "");
}

#[test]
fn test_round_trip_extraction() {
    let content = b"line 1\nline 2\nline 3\nline 4\nline 5";
    let ranges = vec![range("test.txt", 2, 3)];

    let selected = extract_lines_from_content(content, &ranges, "test.txt");
    let remaining = extract_complement_lines(content, &ranges, "test.txt");

    let selected_str = String::from_utf8(selected).unwrap();
    let remaining_str = String::from_utf8(remaining).unwrap();

    let selected_lines: Vec<&str> = selected_str.lines().collect();
    let remaining_lines: Vec<&str> = remaining_str.lines().collect();

    // Together they should have all the lines
    assert_eq!(selected_lines.len() + remaining_lines.len(), 5);

    // No overlap
    for line in &selected_lines {
        assert!(!remaining_lines.contains(line));
    }
}

#[test]
fn extract_orders_ranges_by_start_line() {
    let content = b"a\nb\nc\nd";
    let ranges = vec![range("t", 3, 4), range("t", 1, 1)];

    let result = extract_lines_from_content(content, &ranges, "t");

    assert_eq!(String::from_utf8(result).unwrap(), "a\nc\nd");
}

#[test]
fn extract_emits_overlapping_selections_once_per_range() {
    let content = b"a\nb\nc";
    let ranges = vec![range("t", 1, 2), range("t", 2, 3)];

    let selected = extract_lines_from_content(content, &ranges, "t");
    assert_eq!(String::from_utf8(selected).unwrap(), "a\nb\nb\nc");

    // The complement excludes a line once however many ranges cover it.
    let remaining = extract_complement_lines(content, &ranges, "t");
    assert_eq!(String::from_utf8(remaining).unwrap(), "");
}

#[test]
fn extract_normalizes_crlf_endings() {
    let content = b"a\r\nb\r\nc\r\nd";
    let ranges = vec![range("t", 2, 3)];

    let selected = extract_lines_from_content(content, &ranges, "t");
    assert_eq!(String::from_utf8(selected).unwrap(), "b\nc");

    let remaining = extract_complement_lines(content, &ranges, "t");
    assert_eq!(String::from_utf8(remaining).unwrap(), "a\nd");
}

#[test]
fn extract_on_empty_content() {
    let content = b"";
    let ranges = vec![range("t", 1, 3)];

    assert_eq!(extract_lines_from_content(content, &ranges, "t"), b"");
    assert_eq!(extract_complement_lines(content, &ranges, "t"), b"");
}

#[test]
fn complement_range_past_the_end_keeps_everything() {
    let content = b"a\nb";
    let ranges = vec![range("t", 5, 9)];

    let remaining = extract_complement_lines(content, &ranges, "t");
    assert_eq!(String::from_utf8(remaining).unwrap(), "a\nb");

    let selected = extract_lines_from_content(content, &ranges, "t");
    assert_eq!(selected, b"");
}

#[test]
fn trailing_newline_ends_the_last_line_without_adding_one() {
    let content = b"a\nb\n";
    let ranges = vec![range("t", 1, 2)];

    let selected = extract_lines_from_content(content, &ranges, "t");
    assert_eq!(String::from_utf8(selected).unwrap(), "a\nb");

    let remaining = extract_complement_lines(content, &ranges, "t");
    assert_eq!(remaining, b"");
}

#[test]
fn lone_carriage_return_on_the_final_line_is_kept() {
    // Only a carriage return directly before a line feed belongs to the
    // line ending; a final `\r` with no line feed stays in the line.
    let content = b"a\r\nb\r";
    let ranges = vec![range("t", 2, 2)];

    let selected = extract_lines_from_content(content, &ranges, "t");
    assert_eq!(selected, b"b\r");

    let remaining = extract_complement_lines(content, &ranges, "t");
    assert_eq!(remaining, b"a");
}

#[test]
fn complement_passthrough_is_byte_identical() {
    // With no matching range the complement is the one place the exact
    // original bytes survive, line endings included.
    let content = b"a\r\nb\r\n";
    let ranges = vec![range("other", 1, 1)];

    let result = extract_complement_lines(content, &ranges, "t");
    assert_eq!(result, content);
}
