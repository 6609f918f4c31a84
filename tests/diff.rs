use heckel_diff::{heckel_diff, Edit};

fn lines(v: &[&str]) -> Vec<String> {
    v.iter().map(|s| s.to_string()).collect()
}

fn unchanged(old_line: usize, new_line: usize, content: &str) -> Edit {
    Edit::Unchanged { old_line, new_line, content: content.to_string() }
}

fn insert(new_line: usize, content: &str) -> Edit {
    Edit::Insert { new_line, content: content.to_string() }
}

fn delete(old_line: usize, content: &str) -> Edit {
    Edit::Delete { old_line, content: content.to_string() }
}

fn moved(old_line: usize, new_line: usize, content: &str) -> Edit {
    Edit::Move { old_line, new_line, content: content.to_string() }
}

fn old_numbers(edits: &[Edit]) -> Vec<usize> {
    let mut v: Vec<usize> = edits
        .iter()
        .filter_map(|e| match e {
            Edit::Insert { .. } => None,
            Edit::Delete { old_line, .. }
            | Edit::Move { old_line, .. }
            | Edit::Unchanged { old_line, .. } => Some(*old_line),
        })
        .collect();
    v.sort();
    v
}

fn new_numbers(edits: &[Edit]) -> Vec<usize> {
    let mut v: Vec<usize> = edits
        .iter()
        .filter_map(|e| match e {
            Edit::Delete { .. } => None,
            Edit::Insert { new_line, .. }
            | Edit::Move { new_line, .. }
            | Edit::Unchanged { new_line, .. } => Some(*new_line),
        })
        .collect();
    v.sort();
    v
}

#[test]
fn identical_texts_are_all_unchanged() {
    let text = lines(&["a", "b", "a", "c", "c"]);
    let r = heckel_diff(&text, &text);
    assert_eq!(
        r,
        vec![
            unchanged(1, 1, "a"),
            unchanged(2, 2, "b"),
            unchanged(3, 3, "a"),
            unchanged(4, 4, "c"),
            unchanged(5, 5, "c"),
        ]
    );
}

#[test]
fn empty_old_inserts_everything() {
    let r = heckel_diff(&lines(&[]), &lines(&["x", "y", "x"]));
    assert_eq!(r, vec![insert(1, "x"), insert(2, "y"), insert(3, "x")]);
}

#[test]
fn empty_new_deletes_everything() {
    let r = heckel_diff(&lines(&["x", "y", "x"]), &lines(&[]));
    assert_eq!(r, vec![delete(1, "x"), delete(2, "y"), delete(3, "x")]);
}

#[test]
fn both_empty_report_nothing() {
    let r = heckel_diff(&lines(&[]), &lines(&[]));
    assert!(r.is_empty());
}

#[test]
fn unique_line_is_matched_at_another_position() {
    let r = heckel_diff(&lines(&["a", "x", "b"]), &lines(&["x", "c"]));
    assert_eq!(r, vec![delete(1, "a"), unchanged(2, 1, "x"), insert(2, "c"), delete(3, "b")]);
}

#[test]
fn line_removed_from_the_middle() {
    let r = heckel_diff(&lines(&["A", "B", "C"]), &lines(&["A", "C"]));
    assert_eq!(r, vec![unchanged(1, 1, "A"), delete(2, "B"), unchanged(3, 2, "C")]);
}

#[test]
fn line_inserted_in_the_middle() {
    let r = heckel_diff(&lines(&["A", "C"]), &lines(&["A", "B", "C"]));
    assert_eq!(r, vec![unchanged(1, 1, "A"), insert(2, "B"), unchanged(2, 3, "C")]);
}

#[test]
fn block_relocated() {
    let r = heckel_diff(&lines(&["A", "B", "C"]), &lines(&["B", "C", "A"]));
    assert_eq!(r, vec![moved(1, 3, "A"), unchanged(2, 1, "B"), unchanged(3, 2, "C")]);
}

#[test]
fn duplicates_follow_a_unique_line_forward() {
    let r = heckel_diff(&lines(&["u", "d", "d"]), &lines(&["u", "d", "d", "n"]));
    assert_eq!(
        r,
        vec![unchanged(1, 1, "u"), unchanged(2, 2, "d"), unchanged(3, 3, "d"), insert(4, "n")]
    );
}

#[test]
fn duplicates_follow_a_unique_line_backward() {
    let r = heckel_diff(&lines(&["d", "d", "u"]), &lines(&["n", "d", "d", "u"]));
    assert_eq!(
        r,
        vec![insert(1, "n"), unchanged(1, 2, "d"), unchanged(2, 3, "d"), unchanged(3, 4, "u")]
    );
}

#[test]
fn duplicates_without_an_anchor_are_replaced() {
    let r = heckel_diff(&lines(&["d", "d"]), &lines(&["e", "d", "d"]));
    assert_eq!(r, vec![insert(1, "e"), insert(2, "d"), insert(3, "d"), delete(1, "d"), delete(2, "d")]);
}

#[test]
fn every_line_is_reported_once() {
    let old = lines(&["a", "b", "c", "a", "d", "e", "b", "f", "", "g"]);
    let new = lines(&["g", "a", "c", "b", "x", "a", "", "e", "e", "f", "h"]);
    let r = heckel_diff(&old, &new);
    assert_eq!(old_numbers(&r), (1..=old.len()).collect::<Vec<usize>>());
    assert_eq!(new_numbers(&r), (1..=new.len()).collect::<Vec<usize>>());
}

#[test]
fn running_twice_gives_the_same_edits() {
    let old = lines(&["p", "q", "r", "q", "s"]);
    let new = lines(&["s", "q", "p", "t", "q"]);
    let first = heckel_diff(&old, &new);
    let second = heckel_diff(&old, &new);
    assert_eq!(first, second);
    assert_eq!(format!("{:?}", first), format!("{:?}", second));
}
