use i18n_hunt::engine::glob::{glob_matches, is_excluded};

#[test]
fn star_stays_within_a_directory() {
    assert!(glob_matches("*.test.ts", "a.test.ts"));
    assert!(!glob_matches("*.test.ts", "dir/a.test.ts"));
    assert!(glob_matches("src/*.ts", "src/a.ts"));
    assert!(!glob_matches("src/*.ts", "src/x/a.ts"));
    assert!(glob_matches("*", ""));
}

#[test]
fn globstar_crosses_directories() {
    assert!(glob_matches("**/*.test.ts", "a.test.ts"));
    assert!(glob_matches("**/*.test.ts", "views/login/a.test.ts"));
    assert!(!glob_matches("**/*.test.ts", "views/login/a.ts"));
    assert!(glob_matches("legacy/**", "legacy/a.ts"));
    assert!(glob_matches("legacy/**", "legacy/x/y/a.ts"));
    assert!(!glob_matches("legacy/**", "modern/legacy/a.ts"));
    assert!(glob_matches("a/**/b.ts", "a/b.ts"));
    assert!(glob_matches("a/**/b.ts", "a/x/y/b.ts"));
    assert!(glob_matches("**", "anything/at/all"));
}

#[test]
fn question_mark_and_literals() {
    assert!(glob_matches("v?.json", "v1.json"));
    assert!(!glob_matches("v?.json", "v12.json"));
    assert!(!glob_matches("a?b", "a/b"));
    assert!(glob_matches("Legacy/Old.json", "Legacy/Old.json"));
    assert!(!glob_matches("Legacy/Old.json", "legacy/Old.json"));
}

#[test]
fn excluded_when_any_pattern_matches() {
    let patterns = vec!["**/*.test.ts".to_string(), "legacy/**".to_string()];
    assert!(is_excluded(&patterns, "legacy/a.ts"));
    assert!(is_excluded(&patterns, "x/a.test.ts"));
    assert!(!is_excluded(&patterns, "x/a.ts"));
    assert!(!is_excluded(&vec![], "x/a.ts"));
}
