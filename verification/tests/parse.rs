use tig_review::git::parse::parse_diff;
use tig_review::git::LineType;

#[test]
fn parse_simple_hunk() {
    let text = "@@ -1,3 +1,3 @@\n context\n-removed\n+added\n";
    let hunks = parse_diff(text).unwrap();
    assert_eq!(hunks.len(), 1);
    assert_eq!(hunks[0].header, "@@ -1,3 +1,3 @@");
    assert_eq!(hunks[0].lines.len(), 3);
    assert_eq!(hunks[0].lines[0].line_type, LineType::Context);
    assert_eq!(hunks[0].lines[1].line_type, LineType::Removed);
    assert_eq!(hunks[0].lines[2].line_type, LineType::Added);
}

#[test]
fn parse_binary_marker_returns_empty() {
    let text = "Binary files differ\n";
    let hunks = parse_diff(text).unwrap();
    assert!(hunks.is_empty());
}

#[test]
fn parse_no_newline_marker() {
    let text = "@@ -1,1 +1,1 @@\n context\n\\ No newline at end of file\n";
    let hunks = parse_diff(text).unwrap();
    assert_eq!(hunks.len(), 1);
    assert_eq!(hunks[0].lines[1].line_type, LineType::NoNewline);
}

#[test]
fn parse_two_hunks_after_file_header() {
    let text = "diff --git a/x b/x\n--- a/x\n+++ b/x\n@@ -1 +1 @@\n-a\n+b\n@@ -9 +9 @@\n c\r\n";
    let hunks = parse_diff(text).unwrap();
    assert_eq!(hunks.len(), 2);
    assert_eq!(hunks[0].lines.len(), 2);
    assert_eq!(hunks[0].lines[0].content, "-a");
    assert_eq!(hunks[1].header, "@@ -9 +9 @@");
    assert_eq!(hunks[1].lines[0].content, " c");
    assert_eq!(hunks[1].lines[0].line_type, LineType::Context);
}

#[test]
fn parse_empty_line_in_hunk_is_context() {
    let hunks = parse_diff("@@ -1 +1 @@\n\n+x\n").unwrap();
    assert_eq!(hunks[0].lines.len(), 2);
    assert_eq!(hunks[0].lines[0].content, "");
    assert_eq!(hunks[0].lines[0].line_type, LineType::Context);
}

#[test]
fn diff_split_before_header_parses_as_both_parts() {
    let a = "diff --git a/x b/x\n@@ -1 +1 @@\n-a\n+b\n";
    let b = "@@ -9 +9 @@\n c\n";
    let whole = parse_diff(&format!("{}{}", a, b)).unwrap();
    let mut parts = parse_diff(a).unwrap();
    parts.extend(parse_diff(b).unwrap());
    assert_eq!(whole.len(), 2);
    assert_eq!(whole.len(), parts.len());
    for (x, y) in whole.iter().zip(parts.iter()) {
        assert_eq!(x.header, y.header);
        assert_eq!(x.lines.len(), y.lines.len());
        for (l, m) in x.lines.iter().zip(y.lines.iter()) {
            assert_eq!(l.content, m.content);
            assert_eq!(l.line_type, m.line_type);
        }
    }
}
