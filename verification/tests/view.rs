use tig_review::app::mode::{Focus, Mode};
use tig_review::app::App;
use tig_review::git::{FileChange, Hunk, HunkLine, LineType};
use tig_review::search::GlobalMatch;
use tig_review::view::diff_pane::{diff_pane_rows, diff_title, short_ref_exec, side_by_side_rows, side_by_side_view};
use tig_review::view::panels::{
    branch_lines, commit_lines, files_title, fit_width, global_prompt, search_count, search_title,
    tree_list_offset, tree_row_text,
};
use tig_review::view::pieces::{char_index, highlight_line, word_diff_line, Mark, Piece};
use tig_review::view::set_pane_heights;

fn line(c: &str, t: LineType) -> HunkLine {
    HunkLine { content: c.to_string(), line_type: t }
}

fn texts(ps: &[Piece]) -> Vec<(String, Mark)> {
    ps.iter().map(|p| (p.text.clone(), p.mark)).collect()
}

fn file(path: &str) -> FileChange {
    FileChange {
        path: path.to_string(),
        status: 'M',
        staged_status: None,
        unstaged_status: Some('M'),
        hunks: vec![
            Hunk {
                header: "@@ -1,3 +1,3 @@".to_string(),
                lines: vec![
                    line(" keep", LineType::Context),
                    line("-let x = 1;", LineType::Removed),
                    line("+let x = 2;", LineType::Added),
                ],
            },
            Hunk {
                header: "@@ -9,2 +9,1 @@".to_string(),
                lines: vec![line("-gone", LineType::Removed), line("-also", LineType::Removed)],
            },
        ],
        is_binary: false,
    }
}

#[test]
fn word_diff_marks_the_changed_middle() {
    let ps = word_diff_line("+let x = 2;", "-let x = 1;");
    assert_eq!(
        texts(&ps),
        vec![
            ("+let x = ".to_string(), Mark::Plain),
            ("2".to_string(), Mark::Changed),
            (";".to_string(), Mark::Plain),
        ]
    );
    let joined: String = ps.iter().map(|p| p.text.as_str()).collect();
    assert_eq!(joined, "+let x = 2;");
}

#[test]
fn word_diff_without_shared_text_is_plain() {
    let ps = word_diff_line("+abc", "-xyz");
    assert_eq!(texts(&ps), vec![("+abc".to_string(), Mark::Plain)]);
}

#[test]
fn word_diff_counts_the_end_against_bytes() {
    // the shared start is two bytes long, so at most one shared end char counts
    let ps = word_diff_line("+éb", "-éb");
    let joined: String = ps.iter().map(|p| p.text.as_str()).collect();
    assert_eq!(joined, "+éb");
    assert_eq!(texts(&ps)[0], ("+éb".to_string(), Mark::Plain));
}

#[test]
fn highlight_cuts_around_matches() {
    let ps = highlight_line("a foo b foo", &vec![(2, 5), (8, 11)]);
    assert_eq!(
        texts(&ps),
        vec![
            ("a ".to_string(), Mark::Plain),
            ("foo".to_string(), Mark::Match),
            (" b ".to_string(), Mark::Plain),
            ("foo".to_string(), Mark::Match),
        ]
    );
    let ps = highlight_line("éx", &vec![(2, 3)]);
    assert_eq!(texts(&ps), vec![("é".to_string(), Mark::Plain), ("x".to_string(), Mark::Match)]);
}

#[test]
fn byte_offsets_map_to_chars() {
    let v: Vec<char> = "aéb".chars().collect();
    assert_eq!(char_index(&v, 0), Some(0));
    assert_eq!(char_index(&v, 1), Some(1));
    assert_eq!(char_index(&v, 2), None);
    assert_eq!(char_index(&v, 3), Some(2));
    assert_eq!(char_index(&v, 4), Some(3));
    assert_eq!(char_index(&v, 5), None);
}

#[test]
fn side_by_side_pairs_lines() {
    let f = file("x.rs");
    let rows = side_by_side_rows(&f.hunks);
    let got: Vec<(String, String, Option<LineType>, Option<LineType>)> = rows
        .iter()
        .map(|r| (r.left.clone(), r.right.clone(), r.left_type, r.right_type))
        .collect();
    assert_eq!(
        got,
        vec![
            (" keep".to_string(), " keep".to_string(), Some(LineType::Context), Some(LineType::Context)),
            ("-let x = 1;".to_string(), "+let x = 2;".to_string(), Some(LineType::Removed), Some(LineType::Added)),
            ("-gone".to_string(), String::new(), Some(LineType::Removed), None),
            ("-also".to_string(), String::new(), Some(LineType::Removed), None),
        ]
    );
}

#[test]
fn side_by_side_pairs_added_with_last_removed() {
    let hs = vec![Hunk {
        header: "@@".to_string(),
        lines: vec![
            line("-a", LineType::Removed),
            line("-b", LineType::Removed),
            line("+c", LineType::Added),
            line("+d", LineType::Added),
            line("+e", LineType::Added),
        ],
    }];
    let rows = side_by_side_rows(&hs);
    let got: Vec<(String, String)> = rows.iter().map(|r| (r.left.clone(), r.right.clone())).collect();
    assert_eq!(
        got,
        vec![
            ("-b".to_string(), "+c".to_string()),
            ("-a".to_string(), "+d".to_string()),
            (String::new(), "+e".to_string()),
        ]
    );
}

#[test]
fn diff_title_names_file_and_hunk() {
    let mut app = App::test_new(vec![file("x.rs")]);
    set_pane_heights(&mut app, 10, 4);
    assert_eq!(app.diff_visible_height, 2);
    assert_eq!(diff_title(&app).as_deref(), Some("x.rs  hunk 1/2 ↓"));
    app.compare_commit = Some("0123456789".to_string());
    app.diff_scroll = 3;
    app.diff_cursor = 4;
    assert_eq!(diff_title(&app).as_deref(), Some("↑ x.rs @ 0123456  hunk 2/2 ↓"));
    app.compare_commit = None;
    app.compare_branch = Some("dev".to_string());
    app.diff_scroll = 5;
    assert_eq!(diff_title(&app).as_deref(), Some("↑ x.rs vs dev  hunk 2/2"));
}

#[test]
fn short_names_cut_at_seven_bytes() {
    assert_eq!(short_ref_exec("abc").as_deref(), Some("abc"));
    assert_eq!(short_ref_exec("abcdefghij").as_deref(), Some("abcdefg"));
    assert_eq!(short_ref_exec("abcdeéz").as_deref(), Some("abcdeé"));
    assert_eq!(short_ref_exec("abcdefé"), None);
}

#[test]
fn pane_rows_mark_cursor_hunk_and_changes() {
    let mut app = App::test_new(vec![file("x.rs")]);
    app.diff_visible_height = 4;
    app.focus = Focus::Diff;
    app.diff_cursor = 1;
    let rows = diff_pane_rows(&app);
    assert_eq!(rows.len(), 4);
    assert!(rows[1].is_cursor);
    assert!(rows[0].in_hunk && rows[3].in_hunk);
    assert_eq!(rows[0].line_type, LineType::Header);
    assert_eq!(
        texts(&rows[3].pieces),
        vec![
            ("+let x = ".to_string(), Mark::Plain),
            ("2".to_string(), Mark::Changed),
            (";".to_string(), Mark::Plain),
        ]
    );
    app.last_search_query = "KEEP".to_string();
    let rows = diff_pane_rows(&app);
    assert_eq!(
        texts(&rows[1].pieces),
        vec![(" ".to_string(), Mark::Plain), ("keep".to_string(), Mark::Match)]
    );
}

#[test]
fn side_view_window_and_cursor() {
    let mut app = App::test_new(vec![file("x.rs")]);
    app.diff_visible_height = 2;
    app.diff_scroll = 1;
    app.diff_cursor = 1;
    app.focus = Focus::Diff;
    let v = side_by_side_view(&app);
    assert_eq!(v.len(), 2);
    assert_eq!(v[0].0.left, "-let x = 1;");
    assert!(!v[0].1);
    assert!(v[1].1);
}

#[test]
fn tree_rows_and_title() {
    let mut app = App::test_new(vec![file("src/a.rs"), file("src/b.rs")]);
    let dir = tree_row_text(&app.tree_entries[0]);
    assert_eq!(dir.lead, "▼ ");
    assert_eq!(dir.status, None);
    assert_eq!(dir.name, "src");
    let f = tree_row_text(&app.tree_entries[1]);
    assert_eq!(f.lead, "    ");
    assert_eq!(f.status.as_deref(), Some("M "));
    assert_eq!(f.added.as_deref(), Some(" +1"));
    assert_eq!(f.removed.as_deref(), Some(" -3"));
    assert_eq!(files_title(&app), "Files 1/2");
    app.selected_tree_item = 2;
    assert_eq!(files_title(&app), "Files 2/2");
    assert_eq!(tree_list_offset(2, 0), 0);
    assert_eq!(tree_list_offset(5, 3), 3);
    assert_eq!(tree_list_offset(2, 3), 0);
}

#[test]
fn widths_cut_on_characters() {
    assert_eq!(fit_width("hello", 10).as_deref(), Some("hello"));
    assert_eq!(fit_width("hello", 3).as_deref(), Some("hel"));
    assert_eq!(fit_width("héllo", 3).as_deref(), Some("hé"));
    assert_eq!(fit_width("héllo", 2), None);
}

#[test]
fn search_prompt_texts() {
    let mut app = App::test_new(vec![file("x.rs")]);
    app.mode = Mode::SearchContent;
    app.search_query = "*.rs > keep".to_string();
    assert_eq!(search_title(&app), "Search Content [*.rs]");
    assert_eq!(search_count(&app), "No matches");
    app.mode = Mode::SearchFilename;
    assert_eq!(search_title(&app), "Search Filename");
}

#[test]
fn global_prompt_lists_matches() {
    let mut app = App::test_new(vec![file("x.rs")]);
    app.global_search_query = "fo".to_string();
    let m = |p: &str, n: usize| GlobalMatch {
        file_path: p.to_string(),
        line_number: n,
        content: "a foo".to_string(),
        match_start: 2,
        match_end: 4,
    };
    app.global_search_results = vec![m("a.rs", 3), m("b.rs", 12345), m("c.rs", 7)];
    app.global_search_selected = 2;
    let p = global_prompt(&app, 2).unwrap();
    assert_eq!(p.rows.len(), 2);
    assert_eq!(p.rows[0].place, "b.rs:12345 ");
    assert_eq!(p.rows[1].place, "c.rs:7    ");
    assert_eq!(p.rows[1].before, "a ");
    assert_eq!(p.rows[1].matched, "fo");
    assert_eq!(p.rows[1].after, "o");
    assert!(p.rows[1].selected);
    assert_eq!(p.status, "3 / 3    j/k:nav  Enter:jump  Esc:close");
    app.global_search_results.clear();
    let p = global_prompt(&app, 2).unwrap();
    assert_eq!(p.empty_note, "No matches");
    assert_eq!(p.status, "");
}

#[test]
fn picker_lines() {
    let mut app = App::test_new(Vec::new());
    app.branches = vec!["main".to_string(), "dev".to_string()];
    app.selected_branch = 1;
    assert_eq!(
        branch_lines(&app),
        vec![("  main".to_string(), false), ("> dev".to_string(), true)]
    );
    app.commits = vec![("0123456789".to_string(), "First".to_string())];
    assert_eq!(commit_lines(&app), Some(vec![("> 0123456  First".to_string(), true)]));
}

#[test]
fn search_marks_take_the_query_literally() {
    let mut app = App::test_new(vec![file("x.rs")]);
    app.diff_visible_height = 7;
    app.last_search_query = ".".to_string();
    let rows = diff_pane_rows(&app);
    // no row holds a dot, so nothing is marked as a match
    assert!(rows.iter().all(|r| r.pieces.iter().all(|p| p.mark != Mark::Match)));
    app.last_search_query = "X = 1".to_string();
    let rows = diff_pane_rows(&app);
    assert_eq!(
        texts(&rows[2].pieces),
        vec![
            ("-let ".to_string(), Mark::Plain),
            ("x = 1".to_string(), Mark::Match),
            (";".to_string(), Mark::Plain),
        ]
    );
}

#[test]
fn side_by_side_keeps_every_line() {
    let f = file("x.rs");
    let rows = side_by_side_rows(&f.hunks);
    let left = rows.iter().filter(|r| r.left_type.is_some()).count();
    let right = rows.iter().filter(|r| r.right_type.is_some()).count();
    // removed and context lines on the left, added and context on the right
    assert_eq!(left, 3 + 1);
    assert_eq!(right, 1 + 1);
}
