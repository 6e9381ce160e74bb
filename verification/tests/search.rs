use tig_review::app::fits::files_fit_check;
use tig_review::app::search::parse_search_query;
use tig_review::git::{FileChange, Hunk, HunkLine, LineType};
use tig_review::search::{
    compile, search_content_filtered, search_file_content, search_filename, skip_in_walk,
    sort_global_matches, GlobalMatch,
};

fn file(path: &str, lines: &[&str]) -> FileChange {
    FileChange {
        path: path.to_string(),
        status: 'M',
        staged_status: None,
        unstaged_status: Some('M'),
        hunks: vec![Hunk {
            header: "@@ -1 +1 @@".to_string(),
            lines: lines
                .iter()
                .map(|l| HunkLine { content: l.to_string(), line_type: LineType::Context })
                .collect(),
        }],
        is_binary: false,
    }
}

#[test]
fn query_splits_at_first_angle_bracket() {
    assert_eq!(parse_search_query("*.py > foo"), (Some("*.py"), "foo"));
    assert_eq!(parse_search_query("foo"), (None, "foo"));
    assert_eq!(parse_search_query(" > foo>bar"), (None, "foo>bar"));
}

#[test]
fn file_names_match_ignoring_case() {
    let files = vec![file("src/Main.rs", &[]), file("README.md", &[])];
    let r = search_filename(&files, "MAIN");
    assert_eq!(r.len(), 1);
    assert_eq!(r[0].file_index, 0);
    assert_eq!(r[0].line_number, None);
}

#[test]
fn content_hits_name_diff_rows() {
    let files = vec![file("a.py", &[" Foo", " bar"]), file("b.rs", &[" foo"])];
    let r = search_content_filtered(&files, "foo", None);
    let got: Vec<(usize, Option<usize>)> = r.iter().map(|h| (h.file_index, h.line_number)).collect();
    assert_eq!(got, vec![(0, Some(1)), (1, Some(1))]);
    let r = search_content_filtered(&files, "foo", Some("*.py"));
    assert_eq!(r.len(), 1);
    assert_eq!(r[0].file_index, 0);
    let r = search_content_filtered(&files, "foo", Some("("));
    assert_eq!(r.len(), 0);
}

#[test]
fn global_matches_per_line_and_sorted() {
    let p = compile("o+").unwrap();
    let ms = search_file_content("z.txt", "foo\nbar\nboo oo\n", &p);
    let got: Vec<(usize, usize, usize)> = ms.iter().map(|m| (m.line_number, m.match_start, m.match_end)).collect();
    assert_eq!(got, vec![(1, 1, 3), (3, 1, 3), (3, 4, 6)]);
    assert_eq!(ms[2].content, "boo oo");
    let mk = |p: &str, n: usize| GlobalMatch {
        file_path: p.to_string(),
        line_number: n,
        content: String::new(),
        match_start: 0,
        match_end: 0,
    };
    let sorted = sort_global_matches(vec![mk("b", 1), mk("a", 9), mk("a", 2), mk("b", 1)]);
    let got: Vec<(String, usize)> = sorted.iter().map(|m| (m.file_path.clone(), m.line_number)).collect();
    assert_eq!(
        got,
        vec![("a".to_string(), 2), ("a".to_string(), 9), ("b".to_string(), 1), ("b".to_string(), 1)]
    );
    assert!(compile("(").is_err());
}

#[test]
fn walk_skips_hidden_and_target() {
    assert!(skip_in_walk(".git"));
    assert!(skip_in_walk("target"));
    assert!(!skip_in_walk("targets"));
    assert!(!skip_in_walk("src"));
}

#[test]
fn ordinary_files_fit() {
    let files = vec![file("a/b.rs", &[" x"]), file("c.rs", &[])];
    assert!(files_fit_check(&files));
    assert!(files_fit_check(&Vec::new()));
}

#[test]
fn compiled_pattern_keeps_its_text() {
    let p = compile("b[ae]r").unwrap();
    assert_eq!(p.as_str(), "b[ae]r");
    assert!(p.is_match("a bar"));
    assert!(!p.is_match("a bor"));
}
