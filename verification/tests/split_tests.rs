use hunksplit::range::LineRange;
use hunksplit::split::{distinct_paths, plan_split, SplitError, TreeEntry};

fn range(path: &str, start: usize, end: usize) -> LineRange {
    LineRange { path: path.to_string(), start, end }
}

fn entry(path: &str, content: &[u8]) -> TreeEntry {
    TreeEntry { path: path.to_string(), content: content.to_vec() }
}

#[test]
fn distinct_paths_dedupes_in_first_occurrence_order() {
    let ranges = vec![range("b.txt", 1, 2), range("a.txt", 3, 4), range("b.txt", 9, 9)];
    let paths = distinct_paths(&ranges);
    assert_eq!(paths, vec!["b.txt".to_string(), "a.txt".to_string()]);
}

#[test]
fn plan_split_halves_a_file() {
    // Ranges covering exactly half of the single changed file's lines.
    let tree = vec![entry("f.txt", b"l1\nl2\nl3\nl4")];
    let ranges = vec![range("f.txt", 1, 2)];

    let plan = plan_split(&tree, &ranges, "original message", None).unwrap();

    assert_eq!(plan.remainder_changes.len(), 1);
    assert_eq!(plan.selected_changes.len(), 1);
    assert_eq!(plan.remainder_changes[0].path, "f.txt");
    assert_eq!(plan.selected_changes[0].path, "f.txt");
    // The remainder commit drops the selected lines.
    assert_eq!(plan.remainder_changes[0].content, b"l3\nl4");
    // The selected commit restores the file's full original content, so
    // the two commits' combined diff equals the original commit's diff.
    assert_eq!(plan.selected_changes[0].content, b"l1\nl2\nl3\nl4");
    assert_eq!(plan.remainder_message, "remainder of original message");
    assert_eq!(plan.selected_message, "split: original message");
}

#[test]
fn plan_split_takes_the_callers_message_for_the_selected_commit() {
    let tree = vec![entry("f.txt", b"a\nb")];
    let ranges = vec![range("f.txt", 1, 1)];

    let plan = plan_split(&tree, &ranges, "orig", Some("chosen".to_string())).unwrap();

    assert_eq!(plan.selected_message, "chosen");
    assert_eq!(plan.remainder_message, "remainder of orig");
}

#[test]
fn plan_split_touches_untracked_paths_not_at_all() {
    let tree = vec![entry("kept.txt", b"x\ny"), entry("f.txt", b"a\nb\nc")];
    let ranges = vec![range("f.txt", 2, 2)];

    let plan = plan_split(&tree, &ranges, "m", None).unwrap();

    assert_eq!(plan.remainder_changes.len(), 1);
    assert_eq!(plan.remainder_changes[0].path, "f.txt");
    assert_eq!(plan.remainder_changes[0].content, b"a\nc");
}

#[test]
fn plan_split_fails_on_a_missing_file() {
    let tree = vec![entry("present.txt", b"a")];
    let ranges = vec![range("present.txt", 1, 1), range("absent.txt", 1, 1)];

    let err = plan_split(&tree, &ranges, "m", None).unwrap_err();

    assert_eq!(err, SplitError::FileNotFound("absent.txt".to_string()));
}

#[test]
fn plan_split_over_several_files() {
    let tree = vec![entry("a.txt", b"1\n2\n3"), entry("b.txt", b"x\ny")];
    let ranges = vec![range("a.txt", 1, 1), range("b.txt", 2, 2), range("a.txt", 3, 3)];

    let plan = plan_split(&tree, &ranges, "m", None).unwrap();

    assert_eq!(plan.remainder_changes.len(), 2);
    assert_eq!(plan.remainder_changes[0].path, "a.txt");
    assert_eq!(plan.remainder_changes[0].content, b"2");
    assert_eq!(plan.remainder_changes[1].path, "b.txt");
    assert_eq!(plan.remainder_changes[1].content, b"x");
    assert_eq!(plan.selected_changes[0].content, b"1\n2\n3");
    assert_eq!(plan.selected_changes[1].content, b"x\ny");
}
