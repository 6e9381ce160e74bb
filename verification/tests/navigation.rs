use tig_review::app::mode::{Filter, Focus, ScrollStep, TreeEntry};
use tig_review::app::tree::{build_tree_entries, DirSet};
use tig_review::app::navigation::{
    adjust_scroll, move_diff_cursor, next_file, next_hunk, prev_file, prev_hunk, scroll_diff_down,
};
use tig_review::app::App;
use tig_review::git::{FileChange, Hunk, HunkLine, LineType};

fn file_with_path(path: &str) -> FileChange {
    FileChange {
        path: path.to_string(),
        status: 'M',
        staged_status: None,
        unstaged_status: Some('M'),
        hunks: vec![Hunk {
            header: "@@ -1,1 +1,1 @@".to_string(),
            lines: vec![HunkLine {
                content: " context".to_string(),
                line_type: LineType::Context,
            }],
        }],
        is_binary: false,
    }
}

fn app_with_files(files: Vec<FileChange>) -> App {
    App::test_new(files)
}

fn two_hunk_file(path: &str) -> FileChange {
    let line = |c: &str, t: LineType| HunkLine { content: c.to_string(), line_type: t };
    FileChange {
        path: path.to_string(),
        status: 'M',
        staged_status: Some('M'),
        unstaged_status: None,
        hunks: vec![
            Hunk {
                header: "@@ -1,2 +1,2 @@".to_string(),
                lines: vec![line("-a", LineType::Removed), line("+b", LineType::Added)],
            },
            Hunk {
                header: "@@ -9,1 +9,1 @@".to_string(),
                lines: vec![line(" c", LineType::Context)],
            },
        ],
        is_binary: false,
    }
}

#[test]
fn next_file_skips_directories() {
    let files = vec![file_with_path("src/a.rs"), file_with_path("src/b.rs")];
    let mut app = app_with_files(files);
    app.expanded_dirs.insert("src".to_string());
    app.rebuild_tree();
    // Tree is: src (dir), a.rs, b.rs
    app.selected_tree_item = 0; // on directory
    next_file(&mut app);
    assert_eq!(app.tree_entries[app.selected_tree_item].name, "a.rs");
}

#[test]
fn prev_file_stops_at_first() {
    let files = vec![file_with_path("src/a.rs"), file_with_path("src/b.rs")];
    let mut app = app_with_files(files);
    app.expanded_dirs.insert("src".to_string());
    app.rebuild_tree();
    app.selected_tree_item = app.tree_entries.len() - 1;
    prev_file(&mut app);
    assert_eq!(app.tree_entries[app.selected_tree_item].name, "a.rs");
}

#[test]
fn move_diff_cursor_respects_bounds() {
    let files = vec![file_with_path("x.rs")];
    let mut app = app_with_files(files);
    app.diff_visible_height = 10;
    let max = app.diff_lines().len().saturating_sub(1);
    move_diff_cursor(&mut app, 100);
    assert_eq!(app.diff_cursor, max);
}

#[test]
fn cursor_moves_back_to_zero() {
    let mut app = app_with_files(vec![two_hunk_file("x.rs")]);
    move_diff_cursor(&mut app, 3);
    assert_eq!(app.diff_cursor, 3);
    move_diff_cursor(&mut app, -10);
    assert_eq!(app.diff_cursor, 0);
}

#[test]
fn hunks_are_visited_in_order() {
    let mut app = app_with_files(vec![two_hunk_file("x.rs")]);
    // rows: header, -a, +b, header, c
    assert!(next_hunk(&mut app));
    assert_eq!(app.diff_cursor, 4);
    assert!(!next_hunk(&mut app));
    assert!(prev_hunk(&mut app));
    assert_eq!(app.diff_cursor, 1);
    assert!(!prev_hunk(&mut app));
}

#[test]
fn scrolling_past_last_hunk_moves_to_next_file() {
    let mut app = app_with_files(vec![two_hunk_file("a.rs"), two_hunk_file("b.rs")]);
    assert_eq!(app.scroll_step, ScrollStep::Hunk);
    assert_eq!(app.files[app.selected_file].path, "a.rs");
    scroll_diff_down(&mut app);
    assert_eq!(app.diff_cursor, 4);
    scroll_diff_down(&mut app);
    assert_eq!(app.files[app.selected_file].path, "b.rs");
    assert_eq!(app.diff_cursor, 0);
}

#[test]
fn adjust_scroll_keeps_cursor_visible() {
    let mut app = app_with_files(vec![two_hunk_file("x.rs")]);
    app.diff_visible_height = 2;
    app.diff_cursor = 4;
    app.focus = Focus::Diff;
    adjust_scroll(&mut app);
    // half a page above the cursor, but no further than the last page
    assert_eq!(app.diff_scroll, 3);
    assert!(app.diff_scroll <= app.diff_cursor && app.diff_cursor < app.diff_scroll + 2);
}

#[test]
fn prev_hunk_undoes_next_hunk_from_first_line() {
    let mut app = app_with_files(vec![two_hunk_file("x.rs")]);
    app.diff_cursor = 1;
    assert!(next_hunk(&mut app));
    assert_eq!(app.diff_cursor, 4);
    assert!(prev_hunk(&mut app));
    assert_eq!(app.diff_cursor, 1);
}

#[test]
fn expanding_a_directory_only_inserts_rows() {
    let files = vec![file_with_path("src/a.rs"), file_with_path("src/b.rs"), file_with_path("top.rs")];
    let closed = build_tree_entries(&files, &DirSet::new(), Filter::All);
    let mut open = DirSet::new();
    open.insert("src".to_string());
    let opened = build_tree_entries(&files, &open, Filter::All);
    let names = |rows: &Vec<TreeEntry>| {
        rows.iter().map(|e| e.full_path.clone()).collect::<Vec<_>>()
    };
    assert_eq!(names(&closed), vec!["src", "top.rs"]);
    assert_eq!(names(&opened), vec!["src", "src/a.rs", "src/b.rs", "top.rs"]);
    assert!(!closed[0].expanded);
    assert!(opened[0].expanded);
    assert_eq!(closed[1].file_index, opened[3].file_index);
}
