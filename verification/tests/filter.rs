use hist_scraper::filter::{extract_query_keys, filter_lines, run_filter};
use hist_scraper::text::trim_space;

fn b(s: &str) -> Vec<u8> {
    s.as_bytes().to_vec()
}

fn lines(ls: &[&str]) -> Vec<Vec<u8>> {
    ls.iter().map(|l| b(l)).collect()
}

#[test]
fn filter_removes_exact_matches_in_order() {
    let target = lines(&["ls -l", "cd /tmp", "echo hi", "cd /tmp", "pwd"]);
    let keys = lines(&["cd /tmp", "pwd"]);
    let kept = filter_lines(&target, &keys, 0);
    assert_eq!(kept, lines(&["ls -l", "echo hi"]));
}

#[test]
fn filter_passes_skipped_prefix_through() {
    let target = lines(&["cd /tmp", "cd /tmp", "ls"]);
    let keys = lines(&["cd /tmp"]);
    let kept = filter_lines(&target, &keys, 1);
    assert_eq!(kept, lines(&["cd /tmp", "ls"]));
}

#[test]
fn filter_keeps_duplicates_of_kept_lines() {
    let target = lines(&["a", "b", "a", "a"]);
    let keys = lines(&["b"]);
    let kept = filter_lines(&target, &keys, 0);
    assert_eq!(kept, lines(&["a", "a", "a"]));
}

#[test]
fn filter_is_idempotent_on_lines() {
    let target = lines(&["keep", "drop", "keep", "drop me not"]);
    let keys = lines(&["drop"]);
    let once = filter_lines(&target, &keys, 0);
    let twice = filter_lines(&once, &keys, 0);
    assert_eq!(once, twice);
}

#[test]
fn query_keys_skip_header_empty_lines_and_extract() {
    let query = lines(&["status cmd", "0 cd /tmp", "", "1  ls -l "]);
    let keys = extract_query_keys(&query, &b(" "), true);
    assert_eq!(keys, lines(&["cd /tmp", "ls -l"]));
}

#[test]
fn query_keys_without_header() {
    let query = lines(&["0 make", "0 ls"]);
    let keys = extract_query_keys(&query, &b(" "), false);
    assert_eq!(keys, lines(&["make", "ls"]));
}

#[test]
fn run_filter_end_to_end() {
    let target = b("ls -l\ncd /tmp\necho hi");
    let query = b("status cmd\n0 cd /tmp\n");
    let out = run_filter(&target, &query, &b(" "), 0, false);
    assert_eq!(out, b("ls -l\necho hi"));
}

#[test]
fn run_filter_trims_target_lines() {
    let target = b("  cd /tmp  \n ls ");
    let query = b("header\n0 cd /tmp");
    let out = run_filter(&target, &query, &b(" "), 0, false);
    assert_eq!(out, b("ls"));
}

#[test]
fn run_filter_no_header_uses_first_query_line() {
    let target = b("make\nls");
    let query = b("0 make");
    let out = run_filter(&target, &query, &b(" "), 0, true);
    assert_eq!(out, b("ls"));
}

#[test]
fn run_filter_skip_count_preserves_head() {
    let target = b("cd /tmp\ncd /tmp");
    let query = b("h\n0 cd /tmp");
    let out = run_filter(&target, &query, &b(" "), 1, false);
    assert_eq!(out, b("cd /tmp"));
}

#[test]
fn run_filter_is_idempotent() {
    let target = b("one a\ntwo b\nthree c\ntwo b");
    let query = b("h\n0 two b\n0 three c");
    let once = run_filter(&target, &query, &b(" "), 0, false);
    let twice = run_filter(&once, &query, &b(" "), 0, false);
    assert_eq!(once, b("one a"));
    assert_eq!(once, twice);
}

#[test]
fn run_filter_empty_target() {
    let out = run_filter(&b(""), &b("h\n0 x"), &b(" "), 0, false);
    assert_eq!(out, b(""));
}

#[test]
fn trim_removes_surrounding_whitespace() {
    assert_eq!(trim_space(&b("  spaced out \t")), b("spaced out"));
    assert_eq!(trim_space(&b("\r\n")), b(""));
    assert_eq!(trim_space(&b("tight")), b("tight"));
}

#[test]
fn trim_removes_unicode_whitespace() {
    assert_eq!(trim_space(&b("\u{00A0}x\u{00A0}")), b("x"));
    assert_eq!(trim_space(&b("\u{2003}\u{2003}wide\u{3000}")), b("wide"));
    assert_eq!(trim_space(&b("\u{2028}")), b(""));
    assert_eq!(trim_space(&b("\u{00E9}")), b("\u{00E9}"));
}

#[test]
fn run_filter_trims_unicode_whitespace() {
    let target = b("\u{00A0}cd /tmp\u{00A0}\nls");
    let query = b("h\n0 cd /tmp");
    let out = run_filter(&target, &query, &b(" "), 0, false);
    assert_eq!(out, b("ls"));
}

#[test]
fn query_line_without_separator_is_whole_key() {
    let target = b("make\nls");
    let query = b("h\nmake");
    let out = run_filter(&target, &query, &b(" "), 0, false);
    assert_eq!(out, b("ls"));
}
