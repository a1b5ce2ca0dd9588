use dokosa::glob::{GlobPathFilter, GlobPathPattern};

fn glob_matches(s: &str, pattern: &str) -> bool {
    GlobPathPattern::new(pattern.as_bytes()).matches(s.as_bytes())
}

#[test]
fn test_glob_matches() {
    // Exact matches
    assert!(glob_matches("hello", "hello"));
    assert!(!glob_matches("hello", "world"));

    // Multi-character wildcard
    assert!(glob_matches("hello", "*"));
    assert!(glob_matches("hello", "h*"));
    assert!(glob_matches("hello", "*o"));
    assert!(glob_matches("hello", "h*o"));
    assert!(glob_matches("hello", "*ell*"));
    assert!(glob_matches("hello", "he*lo"));
    assert!(!glob_matches("hello", "*x*"));
    assert!(!glob_matches("hello", "h*x"));

    // Multiple stars
    assert!(glob_matches("hello", "h**o"));
    assert!(glob_matches("hello", "*h*e*l*l*o*"));
    assert!(glob_matches("abc", "***"));

    // Edge cases
    assert!(glob_matches("", ""));
    assert!(glob_matches("", "*"));
    assert!(glob_matches("", "***"));
    assert!(!glob_matches("a", ""));
    assert!(!glob_matches("hello", "hi*"));
}

#[test]
fn test_prefix_suffix_pattern() {
    // `a*b` accepts any string starting with `a` and ending with `b`,
    // overlap excluded but exact concatenation allowed.
    assert!(glob_matches("ab", "a*b"));
    assert!(glob_matches("axxxb", "a*b"));
    assert!(glob_matches("abab", "a*b"));
    assert!(!glob_matches("a", "a*b"));
    assert!(!glob_matches("b", "a*b"));
    assert!(!glob_matches("ba", "a*b"));
    // an early occurrence of the suffix must not hide a later one
    assert!(glob_matches("hoollo", "h*o"));
}

#[test]
fn test_pattern_text_round_trip() {
    for p in ["", "*", "a*b", "*x*", "src/*.rs", "**", "a**b"] {
        let compiled = GlobPathPattern::new(p.as_bytes());
        assert_eq!(compiled.to_text(), p.as_bytes().to_vec());
    }
}

#[test]
fn test_filter_include_exclude() {
    // Scenario: include `*.rs`, exclude `*/tests/*`.
    let filter = GlobPathFilter {
        include_files: vec![GlobPathPattern::new(b"*.rs")],
        exclude_files: vec![GlobPathPattern::new(b"*/tests/*")],
    };
    assert!(filter.should_include(b"/repo/src/main.rs"));
    assert!(!filter.should_include(b"/repo/src/tests/foo.rs"));
    // not a .rs file
    assert!(!filter.should_include(b"/repo/README.md"));
}

#[test]
fn test_empty_filter_includes_all() {
    let filter = GlobPathFilter { include_files: vec![], exclude_files: vec![] };
    assert!(filter.should_include(b"/anything/at/all"));
    assert!(filter.should_include(b""));
}
