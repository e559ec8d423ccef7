use theme_loader::rewrite::{splice, Replacement};

fn edit(start: usize, end: usize, text: &str) -> Replacement {
    Replacement { start, end, text: text.as_bytes().to_vec() }
}

#[test]
fn no_edits_leave_the_text() {
    assert_eq!(splice(b"hello world", &Vec::new()), Some(b"hello world".to_vec()));
    assert_eq!(splice(b"", &Vec::new()), Some(Vec::new()));
}

#[test]
fn one_edit_replaces_its_range() {
    assert_eq!(splice(b"hello world", &vec![edit(0, 5, "HI")]), Some(b"HI world".to_vec()));
    assert_eq!(splice(b"hello world", &vec![edit(6, 11, "there!")]), Some(b"hello there!".to_vec()));
    assert_eq!(splice(b"hello world", &vec![edit(5, 5, ",")]), Some(b"hello, world".to_vec()));
    assert_eq!(splice(b"hello world", &vec![edit(5, 11, "")]), Some(b"hello".to_vec()));
}

#[test]
fn edits_apply_in_order() {
    let edits = vec![edit(0, 1, "AAA"), edit(2, 3, ""), edit(3, 3, "-"), edit(4, 5, "E")];
    assert_eq!(splice(b"abcde", &edits), Some(b"AAAb-dE".to_vec()));
}

#[test]
fn overlapping_edits_have_no_result() {
    assert_eq!(splice(b"abcde", &vec![edit(0, 3, "x"), edit(2, 4, "y")]), None);
}

#[test]
fn edits_out_of_order_have_no_result() {
    assert_eq!(splice(b"abcde", &vec![edit(3, 4, "x"), edit(0, 1, "y")]), None);
}

#[test]
fn edits_outside_the_text_have_no_result() {
    assert_eq!(splice(b"abcde", &vec![edit(4, 6, "x")]), None);
    assert_eq!(splice(b"abcde", &vec![edit(3, 2, "x")]), None);
    assert_eq!(splice(b"", &vec![edit(0, 1, "x")]), None);
}
