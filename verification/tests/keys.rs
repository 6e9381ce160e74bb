use tig_review::app::search::{next_global_result, prev_global_result};
use tig_review::search::GlobalMatch;
use tig_review::app::clipboard::{copy_hunk, copy_hunk_clean};
use tig_review::app::key_handlers::{
    branches_fetched, copy_done, files_fetched, AfterFiles, Key, KeyAction, KeyPress,
};
use tig_review::app::mode::{Filter, Focus, Mode, ScrollStep};
use tig_review::app::status_text::status_text;
use tig_review::app::{App, FileSource};
use tig_review::git::{FileChange, Hunk, HunkLine, LineType};

fn line(c: &str, t: LineType) -> HunkLine {
    HunkLine { content: c.to_string(), line_type: t }
}

fn file(path: &str, staged: bool) -> FileChange {
    FileChange {
        path: path.to_string(),
        status: 'M',
        staged_status: if staged { Some('M') } else { None },
        unstaged_status: if staged { None } else { Some('M') },
        hunks: vec![Hunk {
            header: "@@ -1,3 +1,3 @@".to_string(),
            lines: vec![
                line(" keep", LineType::Context),
                line("-old", LineType::Removed),
                line("+new", LineType::Added),
                line("\\ No newline at end of file", LineType::NoNewline),
            ],
        }],
        is_binary: false,
    }
}

fn key(c: char) -> KeyPress {
    KeyPress { key: Key::Char(c), ctrl: false }
}

fn press(app: &mut App, k: KeyPress) -> KeyAction {
    app.handle_key(k)
}

#[test]
fn q_and_ctrl_c_quit() {
    let mut app = App::test_new(vec![file("a.rs", false)]);
    assert!(matches!(press(&mut app, key('q')), KeyAction::Quit));
    app.mode = Mode::Help;
    assert!(matches!(
        press(&mut app, KeyPress { key: Key::Char('c'), ctrl: true }),
        KeyAction::Quit
    ));
    assert_eq!(app.mode, Mode::Help);
}

#[test]
fn tab_toggles_focus_twice_back() {
    let mut app = App::test_new(vec![file("a.rs", false)]);
    assert_eq!(app.focus, Focus::Files);
    press(&mut app, KeyPress { key: Key::Tab, ctrl: false });
    assert_eq!(app.focus, Focus::Diff);
    press(&mut app, KeyPress { key: Key::Tab, ctrl: false });
    assert_eq!(app.focus, Focus::Files);
}

#[test]
fn filter_cycles_with_messages() {
    let mut app = App::test_new(vec![file("a.rs", true), file("b.rs", false)]);
    press(&mut app, key('s'));
    assert_eq!(app.filter, Filter::Staged);
    assert_eq!(app.message.as_deref(), Some("Filter: staged"));
    assert_eq!(app.files[app.selected_file].path, "a.rs");
    press(&mut app, key('s'));
    assert_eq!(app.filter, Filter::Unstaged);
    assert_eq!(app.files[app.selected_file].path, "b.rs");
    press(&mut app, key('s'));
    assert_eq!(app.filter, Filter::All);
    assert_eq!(app.message.as_deref(), Some("Filter: all"));
}

#[test]
fn scroll_step_key_only_in_diff() {
    let mut app = App::test_new(vec![file("a.rs", false)]);
    press(&mut app, key('v'));
    assert_eq!(app.scroll_step, ScrollStep::Hunk);
    app.focus = Focus::Diff;
    press(&mut app, key('v'));
    assert_eq!(app.scroll_step, ScrollStep::Line);
    assert_eq!(app.message.as_deref(), Some("Scroll step: line"));
}

#[test]
fn split_key_toggles_view() {
    let mut app = App::test_new(vec![file("a.rs", false)]);
    press(&mut app, key('|'));
    assert!(app.side_by_side);
    assert_eq!(app.message.as_deref(), Some("Diff view: side-by-side"));
    press(&mut app, key('|'));
    assert!(!app.side_by_side);
    assert_eq!(app.message.as_deref(), Some("Diff view: unified"));
}

#[test]
fn search_prompt_types_and_confirms() {
    let mut app = App::test_new(vec![file("a.rs", false), file("b.rs", false)]);
    press(&mut app, key('/'));
    assert_eq!(app.mode, Mode::SearchContent);
    for c in "OLD".chars() {
        press(&mut app, key(c));
    }
    assert_eq!(app.search_query, "OLD");
    assert_eq!(app.search_results.len(), 2);
    assert_eq!(app.diff_cursor, 2);
    press(&mut app, KeyPress { key: Key::Backspace, ctrl: false });
    assert_eq!(app.search_query, "OL");
    assert_eq!(app.search_results.len(), 2);
    press(&mut app, KeyPress { key: Key::Enter, ctrl: false });
    assert_eq!(app.mode, Mode::Normal);
    assert_eq!(app.last_search_query, "OL");
    press(&mut app, key('n'));
    assert_eq!(app.selected_search_result, 1);
    assert_eq!(app.files[app.selected_file].path, "b.rs");
    assert_eq!(app.focus, Focus::Diff);
    assert_eq!(status_text(&app), "Result 2/2    n:next  N:prev  Esc:clear");
    press(&mut app, key('N'));
    assert_eq!(app.selected_search_result, 0);
}

#[test]
fn search_without_hits_says_so() {
    let mut app = App::test_new(vec![file("a.rs", false)]);
    press(&mut app, key('f'));
    press(&mut app, key('z'));
    press(&mut app, KeyPress { key: Key::Enter, ctrl: false });
    assert!(app.search_results.is_empty());
    assert_eq!(app.message.as_deref(), Some("No results found"));
}

#[test]
fn global_search_keys_ask_for_a_search() {
    let mut app = App::test_new(vec![file("a.rs", false)]);
    press(&mut app, key('S'));
    assert_eq!(app.mode, Mode::GlobalSearch);
    match press(&mut app, key('x')) {
        KeyAction::SearchWorkTree(q) => assert_eq!(q, "x"),
        other => panic!("unexpected {:?}", other),
    }
    assert!(matches!(press(&mut app, KeyPress { key: Key::Backspace, ctrl: false }), KeyAction::Done));
    assert!(app.global_search_query.is_empty());
    press(&mut app, KeyPress { key: Key::Esc, ctrl: false });
    assert_eq!(app.mode, Mode::Normal);
}

#[test]
fn branch_key_lists_branches_then_compares() {
    let mut app = App::test_new(vec![file("a.rs", false)]);
    assert!(matches!(press(&mut app, key('b')), KeyAction::FetchBranches));
    branches_fetched(&mut app, vec!["main".to_string(), "dev".to_string()]);
    assert_eq!(app.mode, Mode::BranchSelect);
    press(&mut app, key('k'));
    assert_eq!(app.selected_branch, 1);
    press(&mut app, key('j'));
    assert_eq!(app.selected_branch, 0);
    press(&mut app, key('j'));
    let act = press(&mut app, KeyPress { key: Key::Enter, ctrl: false });
    let then = match act {
        KeyAction::FetchFiles { source: FileSource::Branch(b), then } => {
            assert_eq!(b, "dev");
            then
        }
        other => panic!("unexpected {:?}", other),
    };
    assert!(files_fetched(&mut app, then, vec![file("z.rs", false)]));
    assert_eq!(app.mode, Mode::Normal);
    assert_eq!(app.compare_branch.as_deref(), Some("dev"));
    assert_eq!(app.message.as_deref(), Some("Comparing against: dev"));
    assert_eq!(app.files[app.selected_file].path, "z.rs");
    // b again clears the comparison from the working tree
    match press(&mut app, key('b')) {
        KeyAction::FetchFiles { source: FileSource::WorkingTree(false), then: AfterFiles::ClearBranch } => {}
        other => panic!("unexpected {:?}", other),
    }
    assert!(files_fetched(&mut app, AfterFiles::ClearBranch, vec![file("a.rs", false)]));
    assert_eq!(app.compare_branch, None);
    assert_eq!(app.message.as_deref(), Some("Cleared branch comparison"));
}

#[test]
fn no_branches_is_reported() {
    let mut app = App::test_new(vec![file("a.rs", false)]);
    branches_fetched(&mut app, Vec::new());
    assert_eq!(app.mode, Mode::Normal);
    assert_eq!(app.message.as_deref(), Some("No branches found"));
}

#[test]
fn commit_key_asks_for_fifty_commits() {
    let mut app = App::test_new(vec![file("a.rs", false)]);
    match press(&mut app, key('c')) {
        KeyAction::FetchCommits { limit } => assert_eq!(limit, 50),
        other => panic!("unexpected {:?}", other),
    }
}

#[test]
fn reload_keeps_the_selected_file() {
    let mut app = App::test_new(vec![file("a.rs", false), file("b.rs", false)]);
    press(&mut app, key('j'));
    assert_eq!(app.files[app.selected_file].path, "b.rs");
    let then = match press(&mut app, key('r')) {
        KeyAction::FetchFiles { source: FileSource::WorkingTree(false), then } => then,
        other => panic!("unexpected {:?}", other),
    };
    assert!(files_fetched(&mut app, then, vec![file("0.rs", false), file("b.rs", false)]));
    assert_eq!(app.files[app.selected_file].path, "b.rs");
    assert_eq!(app.message.as_deref(), Some("Files reloaded"));
}

#[test]
fn untracked_key_reloads_and_notes() {
    let mut app = App::test_new(vec![file("a.rs", false)]);
    let then = match press(&mut app, key('U')) {
        KeyAction::FetchFiles { source: FileSource::WorkingTree(true), then } => then,
        other => panic!("unexpected {:?}", other),
    };
    assert!(app.show_untracked);
    assert!(files_fetched(&mut app, then, vec![file("a.rs", false)]));
    assert_eq!(app.message.as_deref(), Some("Untracked files: shown"));
}

#[test]
fn copy_keys_give_hunk_texts() {
    let mut app = App::test_new(vec![file("a.rs", false)]);
    assert_eq!(
        copy_hunk(&app).as_deref(),
        Some("@@ -1,3 +1,3 @@\n keep\n-old\n+new\n\\ No newline at end of file\n")
    );
    assert_eq!(copy_hunk_clean(&app).as_deref(), Some("keep\nold\nnew\n"));
    match press(&mut app, key('Y')) {
        KeyAction::Copy { text, clean } => {
            assert!(clean);
            assert_eq!(text, "keep\nold\nnew\n");
        }
        other => panic!("unexpected {:?}", other),
    }
    copy_done(&mut app, true, true);
    assert_eq!(app.message.as_deref(), Some("Code copied to clipboard"));
    copy_done(&mut app, false, false);
    assert_eq!(app.message.as_deref(), Some("Clipboard not available"));
}

#[test]
fn nothing_to_copy_without_files() {
    let mut app = App::test_new(Vec::new());
    assert_eq!(copy_hunk(&app), None);
    assert!(matches!(press(&mut app, key('y')), KeyAction::Done));
}

#[test]
fn status_text_shows_counts_and_keys() {
    let mut app = App::test_new(vec![file("a.rs", false), file("b.rs", true)]);
    assert_eq!(
        status_text(&app),
        "+2 -2 [all]  q:quit  h/l:focus  j/k:nav  ]/[:file  d/u:page  enter:open  space:toggle  s:filter  U:untracked  b:branch  c:commit  |:split  S:global  r:refresh"
    );
    app.focus = Focus::Diff;
    assert!(status_text(&app).starts_with("+2 -2 [all]  q:quit  h:focus  j/k:hunk  J/K:line"));
    app.mode = Mode::Help;
    assert_eq!(status_text(&app), "q/Esc:close");
    app.mode = Mode::BranchSelect;
    assert_eq!(status_text(&app), "j/k:nav  Enter:select  Esc:cancel");
    app.mode = Mode::Normal;
    app.show_message("hello".to_string());
    assert_eq!(status_text(&app), "hello");
}

#[test]
fn message_times_out_after_three_seconds() {
    let mut app = App::test_new(Vec::new());
    app.show_message("m".to_string());
    assert!(!app.check_message_timeout(Some(3_000_000_000)));
    assert!(app.message.is_some());
    assert!(app.check_message_timeout(Some(3_000_000_001)));
    assert!(app.message.is_none());
    assert!(!app.check_message_timeout(None));
}

#[test]
fn total_stats_follow_the_filter() {
    let mut app = App::test_new(vec![file("a.rs", false), file("b.rs", true)]);
    assert_eq!(app.total_stats(), (2, 2));
    app.cycle_filter();
    assert_eq!(app.total_stats(), (1, 1));
}

#[test]
fn global_selection_wraps_both_ways() {
    let mut app = App::test_new(vec![file("a.rs", false)]);
    let m = |n: usize| GlobalMatch {
        file_path: "a.rs".to_string(),
        line_number: n,
        content: String::new(),
        match_start: 0,
        match_end: 0,
    };
    app.global_search_results = vec![m(1), m(2), m(3)];
    app.global_search_selected = 2;
    next_global_result(&mut app);
    assert_eq!(app.global_search_selected, 0);
    prev_global_result(&mut app);
    assert_eq!(app.global_search_selected, 2);
    prev_global_result(&mut app);
    next_global_result(&mut app);
    assert_eq!(app.global_search_selected, 2);
}

#[test]
fn copy_report_names_what_was_copied() {
    let mut app = App::test_new(vec![file("a.rs", false)]);
    copy_done(&mut app, false, true);
    assert_eq!(app.message.as_deref(), Some("Hunk copied to clipboard"));
}
