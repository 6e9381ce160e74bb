use tig_review::search::glob::glob_to_regex;

#[test]
fn glob_star_matches_any() {
    let re = glob_to_regex("*.py").unwrap();
    assert!(re.is_match("foo.py"));
    assert!(!re.is_match("foo.rs"));
}

#[test]
fn glob_question_matches_one() {
    let re = glob_to_regex("t?st").unwrap();
    assert!(re.is_match("test"));
    assert!(re.is_match("tast"));
    assert!(!re.is_match("tst"));
}

#[test]
fn glob_escapes_regex_metacharacters() {
    let re = glob_to_regex("a+b").unwrap();
    assert!(re.is_match("a+b"));
    assert!(!re.is_match("aab"));
}

#[test]
fn glob_is_anchored_and_escapes_dots() {
    let re = glob_to_regex("src/*.rs").unwrap();
    assert!(re.is_match("src/main.rs"));
    assert!(!re.is_match("xsrc/main.rs"));
    assert!(!re.is_match("src/mainxrs"));
    assert_eq!(re.as_str(), "^src/.*\\.rs$");
}

#[test]
fn glob_pattern_keeps_its_regex_text() {
    let re = glob_to_regex("t?st").unwrap();
    assert_eq!(re.as_str(), "^t.st$");
}
