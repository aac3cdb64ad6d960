use and_search::{
    extract_line_text, positions_to_line_results, search_file_impl, CompileFailure, Matcher,
    SearchCache, SearchLineResult,
};

const FILE: &[u8] = b"foo\nbar baz\nfoo bar\n";

fn result(line: u32, text: &str) -> SearchLineResult {
    SearchLineResult { line, text: text.to_string() }
}

fn strings(patterns: &[&str]) -> Vec<String> {
    patterns.iter().map(|p| p.to_string()).collect()
}

fn search(bytes: &[u8], patterns: &[&str], unicode: bool, include_lines: bool) -> Vec<SearchLineResult> {
    let mut cache = SearchCache::new();
    cache.search(bytes, &strings(patterns), unicode, include_lines)
}

#[test]
fn union_of_lines_when_all_patterns_match() {
    let r = search(FILE, &["foo", "bar"], false, true);
    assert_eq!(r, vec![result(1, "foo"), result(2, "bar baz"), result(3, "foo bar")]);
}

#[test]
fn pattern_matching_nowhere_gives_nothing() {
    assert_eq!(search(FILE, &["foo", "qux"], false, true), vec![]);
}

#[test]
fn malformed_pattern_gives_nothing() {
    assert_eq!(search(FILE, &["("], false, true), vec![]);
}

#[test]
fn empty_pattern_list_gives_nothing() {
    assert_eq!(search(FILE, &[], false, true), vec![]);
}

#[test]
fn crlf_line_ending_is_dropped() {
    assert_eq!(extract_line_text(b"abc\r\n", 0), "abc");
    let r = search(b"abc\r\nxyz\r\n", &["xyz"], false, true);
    assert_eq!(r, vec![result(2, "xyz")]);
}

#[test]
fn only_one_carriage_return_is_dropped() {
    assert_eq!(extract_line_text(b"abc\r\r\n", 1), "abc\r");
}

#[test]
fn text_suppressed_when_not_requested() {
    let r = search(FILE, &["foo", "bar"], false, false);
    assert_eq!(r, vec![result(1, ""), result(2, ""), result(3, "")]);
}

#[test]
fn same_line_from_two_patterns_reported_once() {
    let r = search(b"foo bar\n", &["bar", "foo"], false, true);
    assert_eq!(r, vec![result(1, "foo bar")]);
}

#[test]
fn lines_come_out_ascending() {
    let r = search(b"z\na\nz\na\n", &["a", "z"], false, false);
    let lines: Vec<u32> = r.iter().map(|e| e.line).collect();
    assert_eq!(lines, vec![1, 2, 3, 4]);
}

#[test]
fn repeated_search_gives_same_output() {
    let mut cache = SearchCache::new();
    let patterns = strings(&["foo", "bar"]);
    let first = cache.search(FILE, &patterns, false, true);
    let second = cache.search(FILE, &patterns, false, true);
    assert_eq!(first, second);
}

#[test]
fn cached_search_matches_fresh_search() {
    let mut warm = SearchCache::new();
    let patterns = strings(&["ba."]);
    assert!(warm.get_or_compile(&patterns, false));
    let cached = warm.search(FILE, &patterns, false, true);
    let fresh = search(FILE, &["ba."], false, true);
    assert_eq!(cached, fresh);
    assert_eq!(fresh, vec![result(2, "bar baz"), result(3, "foo bar")]);
}

#[test]
fn include_text_flag_shares_the_cached_set() {
    let mut cache = SearchCache::new();
    let patterns = strings(&["foo"]);
    let with_text = cache.search(FILE, &patterns, false, true);
    let without_text = cache.search(FILE, &patterns, false, false);
    assert_eq!(with_text, vec![result(1, "foo"), result(3, "foo bar")]);
    assert_eq!(without_text, vec![result(1, ""), result(3, "")]);
}

#[test]
fn failed_compile_keeps_previous_set() {
    let mut cache = SearchCache::new();
    assert!(cache.get_or_compile(&strings(&["foo"]), false));
    assert!(!cache.get_or_compile(&strings(&["foo", "("]), false));
    assert_eq!(cache.search(FILE, &strings(&["foo"]), false, false), vec![result(1, ""), result(3, "")]);
}

#[test]
fn switching_pattern_sets_recompiles() {
    let mut cache = SearchCache::new();
    assert_eq!(cache.search(FILE, &strings(&["baz"]), false, true), vec![result(2, "bar baz")]);
    assert_eq!(cache.search(FILE, &strings(&["foo"]), false, true), vec![result(1, "foo"), result(3, "foo bar")]);
    assert_eq!(cache.search(FILE, &strings(&["baz"]), true, true), vec![result(2, "bar baz")]);
}

#[test]
fn matching_ignores_case() {
    assert_eq!(search(FILE, &["FOO"], false, false), vec![result(1, ""), result(3, "")]);
}

#[test]
fn anchors_match_at_line_boundaries() {
    assert_eq!(search(FILE, &["^bar"], false, true), vec![result(2, "bar baz")]);
    assert_eq!(search(FILE, &["bar$"], false, true), vec![result(3, "foo bar")]);
}

#[test]
fn unicode_mode_widens_word_class() {
    let bytes = "x\n\u{e9}t\u{e9}\n".as_bytes();
    assert_eq!(search(bytes, &["^\\w+$"], true, true), vec![result(1, "x"), result(2, "\u{e9}t\u{e9}")]);
    assert_eq!(search(bytes, &["^\\w+$"], false, true), vec![result(1, "x")]);
}

#[test]
fn invalid_utf8_is_replaced() {
    assert_eq!(extract_line_text(b"a\xffb\nc", 2), "a\u{fffd}b");
}

#[test]
fn last_line_without_newline() {
    assert_eq!(extract_line_text(b"one\ntwo", 5), "two");
    assert_eq!(search(b"one\ntwo", &["w"], false, true), vec![result(2, "two")]);
}

#[test]
fn empty_line_text() {
    assert_eq!(extract_line_text(b"a\n\nb", 2), "");
}

#[test]
fn positions_resolve_to_sorted_distinct_lines() {
    let bytes = b"ab\ncd\r\nef";
    let mut positions = vec![8, 0, 3, 1, 8, 4];
    let r = positions_to_line_results(bytes, &mut positions, true);
    assert_eq!(r, vec![result(1, "ab"), result(2, "cd"), result(3, "ef")]);
    assert_eq!(positions, vec![0, 1, 3, 4, 8]);
}

#[test]
fn position_at_end_of_buffer() {
    let mut positions = vec![4];
    let r = positions_to_line_results(b"ab\nc", &mut positions, true);
    assert_eq!(r, vec![result(2, "c")]);
    let mut after_newline = vec![3];
    let r = positions_to_line_results(b"ab\n", &mut after_newline, true);
    assert_eq!(r, vec![result(2, "")]);
}

#[test]
fn no_positions_no_lines() {
    let mut positions: Vec<usize> = vec![];
    assert_eq!(positions_to_line_results(FILE, &mut positions, true), vec![]);
}

#[test]
fn matcher_compile_reports_failure() {
    assert!(matches!(Matcher::compile(&"a(".to_string(), false), Err(CompileFailure)));
    assert!(Matcher::compile(&"a+".to_string(), true).is_ok());
}

#[test]
fn and_matcher_stops_at_pattern_without_match() {
    let ms: Vec<Matcher> = ["foo", "nothing", "bar"]
        .iter()
        .map(|p| Matcher::compile(&p.to_string(), false).ok().unwrap())
        .collect();
    assert_eq!(search_file_impl(FILE, &ms, true), vec![]);
    assert_eq!(search_file_impl(FILE, &ms[2..], true), vec![result(2, "bar baz"), result(3, "foo bar")]);
}

#[test]
fn empty_file_gives_nothing() {
    assert_eq!(search(b"", &["a"], false, true), vec![]);
}
