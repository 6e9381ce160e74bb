use tig_review::cli::{parse_arg, CompareTarget};

#[test]
fn parse_no_arg() {
    assert_eq!(parse_arg(Vec::new()), None);
}

#[test]
fn parse_commit_ref() {
    assert_eq!(
        parse_arg(vec!["abc123".to_string()]),
        Some(CompareTarget::Commit("abc123".to_string()))
    );
}

#[test]
fn parse_range() {
    assert_eq!(
        parse_arg(vec!["main:branch".to_string()]),
        Some(CompareTarget::Range {
            left: "main".to_string(),
            right: "branch".to_string(),
        })
    );
}

#[test]
fn parse_range_with_slashes() {
    assert_eq!(
        parse_arg(vec!["HEAD~3:feature/x".to_string()]),
        Some(CompareTarget::Range {
            left: "HEAD~3".to_string(),
            right: "feature/x".to_string(),
        })
    );
}

#[test]
fn parse_skips_double_dash() {
    assert_eq!(
        parse_arg(vec!["--".to_string(), "main:branch".to_string()]),
        Some(CompareTarget::Range {
            left: "main".to_string(),
            right: "branch".to_string(),
        })
    );
}

#[test]
fn parse_only_double_dashes_gives_nothing() {
    assert_eq!(parse_arg(vec!["--".to_string(), "--".to_string()]), None);
}

#[test]
fn parse_range_splits_at_first_colon() {
    let t = parse_arg(vec!["a:b:c".to_string()]).unwrap();
    assert_eq!(
        t,
        CompareTarget::Range {
            left: "a".to_string(),
            right: "b:c".to_string(),
        }
    );
    if let CompareTarget::Range { left, right } = t {
        assert_eq!(format!("{}:{}", left, right), "a:b:c");
    }
}

#[test]
fn parse_takes_first_argument_only() {
    assert_eq!(
        parse_arg(vec!["HEAD".to_string(), "main:x".to_string()]),
        Some(CompareTarget::Commit("HEAD".to_string()))
    );
}
