use hist_scraper::extract::{
    column_at, prefix_before_first, prefix_through_column, suffix_after_first, suffix_from_column,
};

fn b(s: &str) -> Vec<u8> {
    s.as_bytes().to_vec()
}

const INPUT: &str = "this is a test string";

#[test]
fn default_for_suffix() {
    let answer = b("is a test string");
    assert_eq!(suffix_after_first(&b(INPUT), &b(" ")), answer);
    assert_eq!(suffix_after_first(&b(INPUT), &b(" ")), answer);
    assert_eq!(suffix_from_column(&b(INPUT), &b(" "), 1), Some(answer));
}

#[test]
fn default_for_prefix() {
    assert_eq!(prefix_before_first(&b(INPUT), &b(" ")), b("this"));
}

#[test]
fn default_for_unit() {
    let answer = b("a");
    assert_eq!(column_at(&b(INPUT), &b(" "), 2), Some(answer.clone()));
    assert_eq!(column_at(&b(INPUT), &b(" "), 2), Some(answer));
}

#[test]
fn not_defaults() {
    let answer_1 = b("this is a test");
    let answer_2 = b("test string");
    assert_eq!(prefix_through_column(&b(INPUT), &b(" "), 3), Some(answer_1));
    assert_eq!(suffix_from_column(&b(INPUT), &b(" "), 3), Some(answer_2));
}

#[test]
fn trailing_sep() {
    let input = b("anything ");
    assert_eq!(suffix_after_first(&input, &b(" ")), b(""));
    assert_eq!(prefix_before_first(&input, &b(" ")), b("anything"));
}

#[test]
fn suffix_without_separator_keeps_whole_line() {
    assert_eq!(suffix_after_first(&b("word"), &b(" ")), b("word"));
    assert_eq!(suffix_after_first(&b(""), &b(" ")), b(""));
}

#[test]
fn prefix_without_separator_keeps_all() {
    assert_eq!(prefix_before_first(&b("word"), &b(" ")), b("word"));
    assert_eq!(prefix_before_first(&b(""), &b(" ")), b(""));
}

#[test]
fn column_out_of_range_is_none() {
    assert_eq!(column_at(&b("one two"), &b(" "), 2), None);
    assert_eq!(prefix_through_column(&b("one two"), &b(" "), 2), None);
    assert_eq!(suffix_from_column(&b("one two"), &b(" "), 2), None);
}

#[test]
fn column_modes_on_single_column() {
    assert_eq!(column_at(&b("alone"), &b(" "), 0), Some(b("alone")));
    assert_eq!(prefix_through_column(&b("alone"), &b(" "), 0), Some(b("alone")));
    assert_eq!(suffix_from_column(&b("alone"), &b(" "), 0), Some(b("alone")));
}

#[test]
fn multibyte_separator() {
    let input = b("one::two::three");
    assert_eq!(column_at(&input, &b("::"), 1), Some(b("two")));
    assert_eq!(suffix_after_first(&input, &b("::")), b("two::three"));
    assert_eq!(prefix_before_first(&input, &b("::")), b("one"));
    assert_eq!(prefix_through_column(&input, &b("::"), 1), Some(b("one::two")));
}
