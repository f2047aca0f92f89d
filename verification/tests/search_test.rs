use search::search;

fn check(text: &str, pattern: &str, expected: Option<&str>) {
    let found = search(text.as_bytes(), pattern.as_bytes());
    let found_str = found.map(|line_bytes| match std::str::from_utf8(line_bytes) {
        Err(_) => "",
        Ok(line) => line,
    });
    assert_eq!(found_str, expected);
}

#[test]
fn test_search() {
    check("1\n..2..\n3", "2", Some("..2.."));
    check("1\n..280..\n3", "280", Some("..280.."));
    check(
        "match Stefan Burnett match
                   Zach Porterro Hill
                   but not this one",
        "match",
        Some("match Stefan Burnett match"),
    );
    check("1\n..280..\n3", "7", None);
}

#[test]
fn test_leftmost_occurrence_wins() {
    check(
        "match A match\nmatch B\nno match here",
        "match",
        Some("match A match"),
    );
}

#[test]
fn test_repeated_calls_agree() {
    let text = "1\n..280..\n3".as_bytes();
    let pattern = "280".as_bytes();
    let first = search(text, pattern);
    let second = search(text, pattern);
    assert_eq!(first, second);
    assert_eq!(first, Some("..280..".as_bytes()));
}

#[test]
fn test_pattern_longer_than_text() {
    check("abc", "abcd", None);
}

#[test]
fn test_pattern_equals_text() {
    check("xbcxabc", "xbcxabc", Some("xbcxabc"));
}

#[test]
fn test_terminators_stay_outside_the_line() {
    check("aa\nbb\ncc", "bb", Some("bb"));
    check("aa\nbb\ncc", "aa", Some("aa"));
    check("aa\nbb\ncc", "cc", Some("cc"));
    check("a\rb\rc", "b", Some("b"));
}

#[test]
fn test_match_with_shared_suffix_inside_pattern() {
    check("aabb", "abb", Some("aabb"));
    check("lolgxbcxabc\n", "xbcxabc", Some("lolgxbcxabc"));
}

#[test]
fn test_single_byte_text() {
    check("z", "z", Some("z"));
    check("z", "y", None);
}
