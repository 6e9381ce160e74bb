//! What each key does in each mode. A key changes the state at once, or
//! asks for outside work (the clipboard, git, the disk) and names the
//! function of this module that takes its outcome.

use vstd::prelude::*;
use crate::git::FileChange;
use crate::search::GlobalMatch;
use super::{App, FileSource, files_fit, filter_cycled, reloaded, source_of};
use super::clipboard::{code_text, copy_hunk, copy_hunk_clean, copy_message, cursor_hunk_index, hunk_text, report_copy};
use super::compare::{
    branch_cleared, branch_set, branches_opened, clear_compare_branch, clear_compare_commit, clear_compare_range,
    commit_cleared, commit_set, commits_opened, enter_branch_select, enter_commit_select, range_cleared,
    set_compare_branch, set_compare_commit,
};
use super::mode::{Focus, Mode, next_step, step_label};
use super::navigation::{
    adjust_scroll, adjusted, at_row, can_step_back, collapse_dir_or_parent, collapsed, dir_toggled, file_at_row,
    find_prev_hunk, half_page_diff_down, half_page_diff_up, half_page_tree_down, half_page_tree_up, half_step,
    lemma_diff_view_len, move_diff_cursor, moved, next_file, next_file_state, next_item, next_tree_item,
    page_diff_down, page_diff_up, page_step, page_tree_down, page_tree_up, prev_file, prev_file_state,
    prev_tree_item, row_down, sat_sub, scroll_diff_down, scroll_diff_up, scroll_up_ok, scrolled_down, scrolled_up,
    toggle_dir, update_selected_file_from_tree,
};
use super::search::{
    close_global_search, execute_search, file_read, global_closed, incremental_search, jump_to_global_result,
    next_global, next_global_result, next_result, next_search_result, open_read_file, opened, prev_global,
    prev_global_result, prev_result, prev_search_result, searched,
};
use super::fits::files_fit_check;
use crate::git::Hunk;
use crate::app::file_with_path;

verus! {

/// A key, as the viewer reads it.
#[derive(Debug, Clone, Copy, PartialEq, Eq, Structural)]
pub enum Key {
    Char(char),
    Up,
    Down,
    Left,
    Right,
    Enter,
    Esc,
    Tab,
    Backspace,
    Other,
}

/// A key press: the key, and whether Control was held.
#[derive(Debug, Clone, Copy, PartialEq, Eq, Structural)]
pub struct KeyPress {
    pub key: Key,
    pub ctrl: bool,
}

/// What the files fetched for a key are for.
#[derive(Debug, Clone)]
pub enum AfterFiles {
    Reload,
    ReloadUntracked,
    CompareBranch(String),
    ClearBranch,
    CompareCommit(String),
    ClearCommit,
    ClearRange,
}

/// What a key asks for beyond the state.
#[derive(Debug)]
pub enum KeyAction {
    /// Nothing: the key is handled.
    Done,
    /// Leave the viewer.
    Quit,
    /// Put `text` on the clipboard, then call `copy_done`.
    Copy { text: String, clean: bool },
    /// Fetch the files of `source`, then call `files_fetched` with `then`.
    FetchFiles { source: FileSource, then: AfterFiles },
    /// List the branches, then call `branches_fetched`.
    FetchBranches,
    /// List at most `limit` recent commits, then call `commits_fetched`.
    FetchCommits { limit: usize },
    /// Search the files of the work tree for the query, then call
    /// `incremental_global_search` with the outcome.
    SearchWorkTree(String),
    /// Read the diff of the file at the path, then call `global_file_read`.
    ReadFile(String),
}

/// The number of recent commits that the commit picker offers.
pub const COMMIT_LIMIT: usize = 50;

// ---------------------------------------------------------------------------
// Normal mode
// ---------------------------------------------------------------------------

/// `m` is `a` with a search prompt of mode `mode` opened: an empty query
/// and no hits.
pub open spec fn search_opened(a: App, mode: Mode, m: App) -> bool {
    &&& m.search_query@.len() == 0
    &&& m.search_results@.len() == 0
    &&& m == (App { mode, search_query: m.search_query, search_results: m.search_results, ..a })
}

/// `m` is `a` after the key `k` of normal mode that changes the state at
/// once, before the diff is scrolled to the cursor.
pub open spec fn normal_effect(a: App, k: Key, m: App) -> bool {
    let files = a.focus == Focus::Files;
    if k == Key::Char('j') || k == Key::Down {
        m == if files {
            next_item(a)
        } else {
            scrolled_down(a)
        }
    } else if k == Key::Char('k') || k == Key::Up {
        m == if files {
            at_row(a, sat_sub(a.selected_tree_item as int, 1))
        } else {
            scrolled_up(a)
        }
    } else if k == Key::Char('J') {
        m == if files {
            a
        } else {
            moved(a, 1)
        }
    } else if k == Key::Char('K') {
        m == if files {
            a
        } else {
            moved(a, -1)
        }
    } else if k == Key::Char('h') || k == Key::Left {
        if files {
            collapsed(a, m)
        } else {
            m == (App { focus: Focus::Files, ..a })
        }
    } else if k == Key::Char('l') || k == Key::Right || k == Key::Enter {
        if files && (a.selected_tree_item as int) < a.tree_entries.len() {
            if a.tree_entries@[a.selected_tree_item as int].is_dir {
                dir_toggled(a, m)
            } else {
                m == (App { focus: Focus::Diff, ..a })
            }
        } else {
            m == a
        }
    } else if k == Key::Char(']') {
        m == next_file_state(a)
    } else if k == Key::Char('[') {
        m == prev_file_state(a)
    } else if k == Key::Char('d') {
        m == if files {
            at_row(a, row_down(a, page_step(a.tree_visible_height)))
        } else {
            moved(a, page_step(a.diff_visible_height))
        }
    } else if k == Key::Char('u') {
        m == if files {
            at_row(a, sat_sub(a.selected_tree_item as int, page_step(a.tree_visible_height)))
        } else {
            moved(a, -page_step(a.diff_visible_height))
        }
    } else if k == Key::Char('g') {
        m == if files {
            App { selected_tree_item: 0, selected_file: file_at_row(a, 0), ..a }
        } else {
            App { diff_cursor: 0, ..a }
        }
    } else if k == Key::Char('G') {
        m == if files {
            let last = sat_sub(a.tree_entries.len() as int, 1);
            App { selected_tree_item: last as usize, selected_file: file_at_row(a, last), ..a }
        } else {
            App { diff_cursor: sat_sub(a.diff_view().len() as int, 1) as usize, ..a }
        }
    } else if k == Key::Char(' ') {
        if files {
            dir_toggled(a, m)
        } else {
            m == a
        }
    } else if k == Key::Char('/') {
        search_opened(a, Mode::SearchContent, m)
    } else if k == Key::Char('f') {
        search_opened(a, Mode::SearchFilename, m)
    } else if k == Key::Char('S') {
        &&& m.global_search_query@.len() == 0
        &&& m.global_search_results@.len() == 0
        &&& m == (App {
            mode: Mode::GlobalSearch,
            global_search_query: m.global_search_query,
            global_search_results: m.global_search_results,
            ..a
        })
    } else if k == Key::Char('?') {
        m == (App { mode: Mode::Help, ..a })
    } else if k == Key::Char('s') {
        filter_cycled(a, m)
    } else if k == Key::Char('|') {
        &&& m.message matches Some(t) && t@ == "Diff view: "@ + if !a.side_by_side {
            "side-by-side"@
        } else {
            "unified"@
        }
        &&& m == (App { side_by_side: !a.side_by_side, message: m.message, ..a })
    } else if k == Key::Char('v') {
        if files {
            m == a
        } else {
            &&& m.message matches Some(t) && t@ == "Scroll step: "@ + step_label(next_step(a.scroll_step))
            &&& m == (App { scroll_step: next_step(a.scroll_step), message: m.message, ..a })
        }
    } else if k == Key::Char('n') {
        m == next_result(a)
    } else if k == Key::Char('N') {
        m == prev_result(a)
    } else if k == Key::Tab {
        m == (App {
            focus: if files {
                Focus::Diff
            } else {
                Focus::Files
            },
            ..a
        })
    } else if k == Key::Esc {
        m.search_results@.len() == 0 && m == (App { search_results: m.search_results, ..a })
    } else {
        m == a
    }
}

/// The copy keys: the text of the hunk under the cursor goes to the
/// clipboard (only its code when `clean`); without such a hunk nothing is
/// copied.
pub open spec fn copy_step(a: App, clean: bool, b: App, act: KeyAction) -> bool {
    match cursor_hunk_index(a) {
        Some(h) => {
            let hk = a.files@[a.selected_file as int].hunks@[h as int];
            &&& b == a
            &&& act matches KeyAction::Copy { text, clean: c } && c == clean && text@ == if clean {
                code_text(hk.lines@)
            } else {
                hunk_text(hk)
            }
        },
        None => act is Done && b == adjusted(a),
    }
}

/// The reload keys: the search hits are cleared and the files of the
/// current comparison are fetched.
pub open spec fn reload_step(a: App, b: App, act: KeyAction, untracked: bool) -> bool {
    &&& act matches KeyAction::FetchFiles { source, then } && source_of(a, source) && then == if untracked {
        AfterFiles::ReloadUntracked
    } else {
        AfterFiles::Reload
    }
    &&& b.search_results@.len() == 0
    &&& b == (App { search_results: b.search_results, ..a })
}

/// `act` fetches the working tree's files for `then`.
pub open spec fn fetch_work_tree(a: App, act: KeyAction, then: AfterFiles) -> bool {
    act matches KeyAction::FetchFiles { source, then: t } && source == FileSource::WorkingTree(a.show_untracked)
        && t == then
}

/// What the key press `k` does in normal mode: `b` is the state it leaves
/// and `act` the outside work it asks for.
pub open spec fn normal_key(a: App, k: KeyPress, b: App, act: KeyAction) -> bool {
    let files = a.focus == Focus::Files;
    if k.ctrl && k.key == Key::Char('d') {
        act is Done && b == adjusted(
            if files {
                at_row(a, row_down(a, half_step(a.tree_visible_height)))
            } else {
                moved(a, half_step(a.diff_visible_height))
            },
        )
    } else if k.ctrl && k.key == Key::Char('u') {
        act is Done && b == adjusted(
            if files {
                at_row(a, sat_sub(a.selected_tree_item as int, half_step(a.tree_visible_height)))
            } else {
                moved(a, -half_step(a.diff_visible_height))
            },
        )
    } else if k.key == Key::Char('q') {
        act is Quit && b == a
    } else if k.key == Key::Char('y') {
        copy_step(a, false, b, act)
    } else if k.key == Key::Char('Y') {
        copy_step(a, true, b, act)
    } else if k.key == Key::Char('r') {
        reload_step(a, b, act, false)
    } else if k.key == Key::Char('U') {
        reload_step(App { show_untracked: !a.show_untracked, ..a }, b, act, true)
    } else if k.key == Key::Char('b') {
        if a.compare_branch is Some {
            fetch_work_tree(a, act, AfterFiles::ClearBranch) && b == (App {
                compare_branch: None,
                compare_range: None,
                ..a
            })
        } else if a.compare_range is Some {
            fetch_work_tree(a, act, AfterFiles::ClearRange) && b == (App { compare_range: None, ..a })
        } else {
            act is FetchBranches && b == a
        }
    } else if k.key == Key::Char('c') {
        if a.compare_commit is Some {
            fetch_work_tree(a, act, AfterFiles::ClearCommit) && b == (App {
                compare_commit: None,
                compare_range: None,
                ..a
            })
        } else if a.compare_range is Some {
            fetch_work_tree(a, act, AfterFiles::ClearRange) && b == (App { compare_range: None, ..a })
        } else {
            act matches KeyAction::FetchCommits { limit } && limit == COMMIT_LIMIT && b == a
        }
    } else {
        act is Done && exists|m: App| normal_effect(a, k.key, m) && b == adjusted(m)
    }
}

/// The keys of normal mode that step back through the tree read only the
/// rows up to one past the last (see `can_step_back`).
pub open spec fn normal_key_ok(a: App, k: KeyPress) -> bool {
    !(k.ctrl && (k.key == Key::Char('d') || k.key == Key::Char('u'))) ==> {
        &&& k.key == Key::Char('[') ==> can_step_back(a)
        &&& (k.key == Key::Char('k') || k.key == Key::Up) && a.focus == Focus::Diff ==> scroll_up_ok(a)
    }
}

fn copy_key(app: &mut App, clean: bool) -> (act: KeyAction)
    requires
        old(app).wf(),
    ensures
        final(app).wf(),
        copy_step(*old(app), clean, *final(app), act),
{
    let text = if clean {
        copy_hunk_clean(app)
    } else {
        copy_hunk(app)
    };
    match text {
        Some(t) => KeyAction::Copy { text: t, clean },
        None => {
            adjust_scroll(app);
            KeyAction::Done
        },
    }
}

fn reload_key(app: &mut App, untracked: bool) -> (act: KeyAction)
    requires
        old(app).wf(),
    ensures
        final(app).wf(),
        reload_step(*old(app), *final(app), act, untracked),
{
    let source = app.begin_reload();
    let then = if untracked {
        AfterFiles::ReloadUntracked
    } else {
        AfterFiles::Reload
    };
    KeyAction::FetchFiles { source, then }
}

/// Applies a key of normal mode that changes the state at once.
fn apply_normal_effect(app: &mut App, k: Key)
    requires
        old(app).wf(),
        k == Key::Char('[') ==> can_step_back(*old(app)),
        (k == Key::Char('k') || k == Key::Up) && old(app).focus == Focus::Diff ==> scroll_up_ok(*old(app)),
    ensures
        final(app).wf(),
        normal_effect(*old(app), k, *final(app)),
{
    let files = app.focus == Focus::Files;
    if k == Key::Char('j') || k == Key::Down {
        if files {
            next_tree_item(app);
        } else {
            scroll_diff_down(app);
        }
    } else if k == Key::Char('k') || k == Key::Up {
        if files {
            prev_tree_item(app);
        } else {
            scroll_diff_up(app);
        }
    } else if k == Key::Char('J') {
        if !files {
            move_diff_cursor(app, 1);
        }
    } else if k == Key::Char('K') {
        if !files {
            move_diff_cursor(app, -1);
        }
    } else if k == Key::Char('h') || k == Key::Left {
        if files {
            collapse_dir_or_parent(app);
        } else {
            app.focus = Focus::Files;
        }
    } else if k == Key::Char('l') || k == Key::Right || k == Key::Enter {
        if files && app.selected_tree_item < app.tree_entries.len() {
            if app.tree_entries[app.selected_tree_item].is_dir {
                toggle_dir(app);
            } else {
                app.focus = Focus::Diff;
            }
        }
    } else if k == Key::Char(']') {
        next_file(app);
    } else if k == Key::Char('[') {
        prev_file(app);
    } else if k == Key::Char('d') {
        if files {
            page_tree_down(app);
        } else {
            page_diff_down(app);
        }
    } else if k == Key::Char('u') {
        if files {
            page_tree_up(app);
        } else {
            page_diff_up(app);
        }
    } else if k == Key::Char('g') {
        if files {
            app.selected_tree_item = 0;
            update_selected_file_from_tree(app);
        } else {
            app.diff_cursor = 0;
        }
    } else if k == Key::Char('G') {
        if files {
            app.selected_tree_item = if app.tree_entries.len() > 0 {
                app.tree_entries.len() - 1
            } else {
                0
            };
            update_selected_file_from_tree(app);
        } else {
            let n = app.diff_lines().len();
            proof {
                lemma_diff_view_len(*app);
            }
            app.diff_cursor = if n > 0 {
                n - 1
            } else {
                0
            };
        }
    } else if k == Key::Char(' ') {
        if files {
            toggle_dir(app);
        }
    } else if k == Key::Char('/') {
        app.mode = Mode::SearchContent;
        app.search_query = String::new();
        app.search_results.clear();
    } else if k == Key::Char('f') {
        app.mode = Mode::SearchFilename;
        app.search_query = String::new();
        app.search_results.clear();
    } else if k == Key::Char('S') {
        app.mode = Mode::GlobalSearch;
        app.global_search_query = String::new();
        app.global_search_results.clear();
    } else if k == Key::Char('?') {
        app.mode = Mode::Help;
    } else if k == Key::Char('s') {
        app.cycle_filter();
    } else if k == Key::Char('|') {
        app.side_by_side = !app.side_by_side;
        let label = if app.side_by_side {
            "side-by-side"
        } else {
            "unified"
        };
        app.show_message(crate::text::concat("Diff view: ", label));
    } else if k == Key::Char('v') {
        if !files {
            app.scroll_step = app.scroll_step.next();
            app.show_message(crate::text::concat("Scroll step: ", app.scroll_step.label()));
        }
    } else if k == Key::Char('n') {
        next_search_result(app);
    } else if k == Key::Char('N') {
        prev_search_result(app);
    } else if k == Key::Tab {
        app.toggle_focus();
    } else if k == Key::Esc {
        app.search_results.clear();
    }
}

/// Handles a key press in normal mode.
pub fn handle_normal_key(app: &mut App, key: KeyPress) -> (act: KeyAction)
    requires
        old(app).wf(),
        normal_key_ok(*old(app), key),
    ensures
        final(app).wf(),
        normal_key(*old(app), key, *final(app), act),
{
    let files = app.focus == Focus::Files;
    if key.ctrl && key.key == Key::Char('d') {
        if files {
            half_page_tree_down(app);
        } else {
            half_page_diff_down(app);
        }
        adjust_scroll(app);
        return KeyAction::Done;
    }
    if key.ctrl && key.key == Key::Char('u') {
        if files {
            half_page_tree_up(app);
        } else {
            half_page_diff_up(app);
        }
        adjust_scroll(app);
        return KeyAction::Done;
    }
    let k = key.key;
    if k == Key::Char('q') {
        KeyAction::Quit
    } else if k == Key::Char('y') {
        copy_key(app, false)
    } else if k == Key::Char('Y') {
        copy_key(app, true)
    } else if k == Key::Char('r') {
        reload_key(app, false)
    } else if k == Key::Char('U') {
        app.show_untracked = !app.show_untracked;
        reload_key(app, true)
    } else if k == Key::Char('b') {
        if app.compare_branch.is_some() {
            app.compare_branch = None;
            app.compare_range = None;
            KeyAction::FetchFiles {
                source: FileSource::WorkingTree(app.show_untracked),
                then: AfterFiles::ClearBranch,
            }
        } else if app.compare_range.is_some() {
            app.compare_range = None;
            KeyAction::FetchFiles { source: FileSource::WorkingTree(app.show_untracked), then: AfterFiles::ClearRange }
        } else {
            KeyAction::FetchBranches
        }
    } else if k == Key::Char('c') {
        if app.compare_commit.is_some() {
            app.compare_commit = None;
            app.compare_range = None;
            KeyAction::FetchFiles {
                source: FileSource::WorkingTree(app.show_untracked),
                then: AfterFiles::ClearCommit,
            }
        } else if app.compare_range.is_some() {
            app.compare_range = None;
            KeyAction::FetchFiles { source: FileSource::WorkingTree(app.show_untracked), then: AfterFiles::ClearRange }
        } else {
            KeyAction::FetchCommits { limit: COMMIT_LIMIT }
        }
    } else {
        apply_normal_effect(app, k);
        let ghost m = *app;
        adjust_scroll(app);
        KeyAction::Done
    }
}

// ---------------------------------------------------------------------------
// The search prompts
// ---------------------------------------------------------------------------

/// `b.search_query` is `a.search_query` with its last character taken off
/// (an empty query stays empty), and nothing else changed.
pub open spec fn query_popped(q: Seq<char>, r: Seq<char>) -> bool {
    r == if q.len() > 0 {
        q.drop_last()
    } else {
        q
    }
}

/// What the key press `k` does in a search prompt (by content or by file
/// name).
pub open spec fn search_key(a: App, k: KeyPress, b: App, act: KeyAction) -> bool {
    &&& act is Done
    &&& if k.key == Key::Esc {
        b.search_results@.len() == 0 && b == (App { mode: Mode::Normal, search_results: b.search_results, ..a })
    } else if k.key == Key::Enter {
        exists|m: App| searched(a, m, true) && b == (App { mode: Mode::Normal, ..m })
    } else if k.key is Char {
        exists|m: App|
            #![trigger m.search_query@]
            m.search_query@ == a.search_query@.push(k.key->0) && m == (App { search_query: m.search_query, ..a })
                && searched(m, b, false)
    } else if k.key == Key::Backspace {
        exists|m: App|
            #![trigger m.search_query@]
            query_popped(a.search_query@, m.search_query@) && m == (App { search_query: m.search_query, ..a })
                && if m.search_query@.len() == 0 {
                b.search_results@.len() == 0 && b == (App { search_results: b.search_results, ..m })
            } else {
                searched(m, b, false)
            }
    } else {
        b == a
    }
}

/// Handles a key press in a search prompt.
pub fn handle_search_key(app: &mut App, key: KeyPress) -> (act: KeyAction)
    requires
        old(app).wf(),
    ensures
        final(app).wf(),
        search_key(*old(app), key, *final(app), act),
{
    match key.key {
        Key::Esc => {
            app.mode = Mode::Normal;
            app.search_results.clear();
        },
        Key::Enter => {
            execute_search(app);
            let ghost m = *app;
            app.mode = Mode::Normal;
            assert(searched(*old(app), m, true));
        },
        Key::Char(c) => {
            app.search_query.push(c);
            let ghost m = *app;
            incremental_search(app);
            assert(m.search_query@ == old(app).search_query@.push(c));
            assert(m == (App { search_query: m.search_query, ..*old(app) }));
            assert(searched(m, *app, false));
        },
        Key::Backspace => {
            let _ = app.search_query.pop();
            let ghost m = *app;
            assert(query_popped(old(app).search_query@, m.search_query@));
            assert(m == (App { search_query: m.search_query, ..*old(app) }));
            if app.search_query.as_str().is_empty() {
                app.search_results.clear();
                assert(*app == (App { search_results: app.search_results, ..m }));
            } else {
                incremental_search(app);
                assert(searched(m, *app, false));
            }
        },
        _ => {},
    }
    KeyAction::Done
}

/// What the key press `k` does in the global search prompt.
pub open spec fn global_search_key(a: App, k: KeyPress, b: App, act: KeyAction) -> bool {
    if k.key == Key::Esc {
        act is Done && global_closed(a, b)
    } else if k.key == Key::Enter {
        let i = a.global_search_selected as int;
        if i >= a.global_search_results.len() {
            act is Done && global_closed(a, b)
        } else {
            let p = a.global_search_results@[i].file_path@;
            match file_with_path(a.files@, p) {
                Some(j) => act is Done && global_closed(opened(a, j as usize), b),
                None => act matches KeyAction::ReadFile(q) && q@ == p && b == a,
            }
        }
    } else if k.key == Key::Char('j') || k.key == Key::Down {
        act is Done && b == next_global(a)
    } else if k.key == Key::Char('k') || k.key == Key::Up {
        act is Done && b == prev_global(a)
    } else if k.key is Char {
        &&& b.global_search_query@ == a.global_search_query@.push(k.key->0)
        &&& b == (App { global_search_query: b.global_search_query, ..a })
        &&& act matches KeyAction::SearchWorkTree(q) && q@ == b.global_search_query@
    } else if k.key == Key::Backspace {
        &&& query_popped(a.global_search_query@, b.global_search_query@)
        &&& if b.global_search_query@.len() == 0 {
            &&& act is Done
            &&& b.global_search_results@.len() == 0
            &&& b == (App {
                global_search_query: b.global_search_query,
                global_search_results: b.global_search_results,
                ..a
            })
        } else {
            &&& act matches KeyAction::SearchWorkTree(q) && q@ == b.global_search_query@
            &&& b == (App { global_search_query: b.global_search_query, ..a })
        }
    } else {
        act is Done && b == a
    }
}

/// Handles a key press in the global search prompt.
pub fn handle_global_search_key(app: &mut App, key: KeyPress) -> (act: KeyAction)
    requires
        old(app).wf(),
    ensures
        final(app).wf(),
        global_search_key(*old(app), key, *final(app), act),
{
    match key.key {
        Key::Esc => {
            close_global_search(app);
            KeyAction::Done
        },
        Key::Enter => {
            match jump_to_global_result(app) {
                Some(path) => KeyAction::ReadFile(path),
                None => {
                    close_global_search(app);
                    KeyAction::Done
                },
            }
        },
        Key::Down => {
            next_global_result(app);
            KeyAction::Done
        },
        Key::Up => {
            prev_global_result(app);
            KeyAction::Done
        },
        Key::Char(c) => {
            if c == 'j' {
                next_global_result(app);
                KeyAction::Done
            } else if c == 'k' {
                prev_global_result(app);
                KeyAction::Done
            } else {
                app.global_search_query.push(c);
                KeyAction::SearchWorkTree(app.global_search_query.clone())
            }
        },
        Key::Backspace => {
            let _ = app.global_search_query.pop();
            if app.global_search_query.as_str().is_empty() {
                app.global_search_results.clear();
                KeyAction::Done
            } else {
                KeyAction::SearchWorkTree(app.global_search_query.clone())
            }
        },
        _ => KeyAction::Done,
    }
}

// ---------------------------------------------------------------------------
// The pickers and the help
// ---------------------------------------------------------------------------

/// The entry after `i` among `n`, wrapping to the first.
pub open spec fn wrap_next(i: usize, n: nat) -> usize {
    if n == 0 {
        i
    } else {
        ((i + 1) % (n as int)) as usize
    }
}

/// The entry before `i` among `n`, wrapping to the last.
pub open spec fn wrap_prev(i: usize, n: nat) -> usize {
    if n == 0 {
        i
    } else if i == 0 {
        (n - 1) as usize
    } else {
        (i - 1) as usize
    }
}

/// Stepping to the next entry and back, or back and on, returns to the
/// entry one started from.
pub proof fn law_wrap_inverse(i: usize, n: nat)
    requires
        i < n <= usize::MAX,
    ensures
        wrap_prev(wrap_next(i, n), n) == i,
        wrap_next(wrap_prev(i, n), n) == i,
{
    lemma_wrap(i, n);
}

proof fn lemma_wrap(i: usize, n: nat)
    requires
        i < n <= usize::MAX,
    ensures
        wrap_next(i, n) == if i + 1 < n {
            (i + 1) as usize
        } else {
            0usize
        },
        wrap_prev(wrap_next(i, n), n) == i,
        wrap_next(wrap_prev(i, n), n) == i,
{
    if i + 1 < n {
        vstd::arithmetic::div_mod::lemma_small_mod((i + 1) as nat, n);
    } else {
        assert((n as int) % (n as int) == 0) by (nonlinear_arith)
            requires
                n > 0,
        ;
    }
    if i > 0 {
        vstd::arithmetic::div_mod::lemma_small_mod(i as nat, n);
    } else {
        assert(((n - 1) + 1) as int == n as int);
        assert((n as int) % (n as int) == 0) by (nonlinear_arith)
            requires
                n > 0,
        ;
    }
}

/// In the global search, the next match then the previous one (or the
/// previous then the next) leaves the state as it was.
pub proof fn law_global_next_prev(a: App)
    requires
        a.global_search_selected < a.global_search_results.len(),
    ensures
        prev_global(next_global(a)) == a,
        next_global(prev_global(a)) == a,
{
    lemma_wrap(a.global_search_selected, a.global_search_results@.len());
}

/// What the key press `k` does in the branch picker.
pub open spec fn branch_select_key(a: App, k: KeyPress, b: App, act: KeyAction) -> bool {
    if k.key == Key::Esc {
        act is Done && b == (App { mode: Mode::Normal, ..a })
    } else if k.key == Key::Enter {
        if (a.selected_branch as int) < a.branches.len() {
            let br = a.branches@[a.selected_branch as int]@;
            &&& act matches KeyAction::FetchFiles { source: FileSource::Branch(x), then: AfterFiles::CompareBranch(y) }
                && x@ == br && y@ == br
            &&& b == (App { compare_commit: None, compare_range: None, ..a })
        } else {
            act is Done && b == (App { mode: Mode::Normal, ..a })
        }
    } else if k.key == Key::Char('j') || k.key == Key::Down {
        act is Done && b == (App { selected_branch: wrap_next(a.selected_branch, a.branches@.len()), ..a })
    } else if k.key == Key::Char('k') || k.key == Key::Up {
        act is Done && b == (App { selected_branch: wrap_prev(a.selected_branch, a.branches@.len()), ..a })
    } else {
        act is Done && b == a
    }
}

/// Handles a key press in the branch picker.
pub fn handle_branch_select_key(app: &mut App, key: KeyPress) -> (act: KeyAction)
    requires
        old(app).wf(),
    ensures
        final(app).wf(),
        branch_select_key(*old(app), key, *final(app), act),
{
    let k = key.key;
    if k == Key::Esc {
        app.mode = Mode::Normal;
    } else if k == Key::Enter {
        if app.selected_branch < app.branches.len() {
            let branch = app.branches[app.selected_branch].clone();
            app.compare_commit = None;
            app.compare_range = None;
            return KeyAction::FetchFiles {
                source: FileSource::Branch(branch.clone()),
                then: AfterFiles::CompareBranch(branch),
            };
        }
        app.mode = Mode::Normal;
    } else if k == Key::Char('j') || k == Key::Down {
        if app.branches.len() > 0 {
            app.selected_branch = (app.selected_branch + 1) % app.branches.len();
        }
    } else if k == Key::Char('k') || k == Key::Up {
        if app.branches.len() > 0 {
            if app.selected_branch == 0 {
                app.selected_branch = app.branches.len() - 1;
            } else {
                app.selected_branch = app.selected_branch - 1;
            }
        }
    }
    KeyAction::Done
}

/// What the key press `k` does in the commit picker.
pub open spec fn commit_select_key(a: App, k: KeyPress, b: App, act: KeyAction) -> bool {
    if k.key == Key::Esc {
        act is Done && b == (App { mode: Mode::Normal, ..a })
    } else if k.key == Key::Enter {
        if (a.selected_commit as int) < a.commits.len() {
            let c = a.commits@[a.selected_commit as int].0@;
            &&& act matches KeyAction::FetchFiles { source: FileSource::Commit(x), then: AfterFiles::CompareCommit(y) }
                && x@ == c && y@ == c
            &&& b == (App { compare_branch: None, compare_range: None, ..a })
        } else {
            act is Done && b == (App { mode: Mode::Normal, ..a })
        }
    } else if k.key == Key::Char('j') || k.key == Key::Down {
        act is Done && b == (App { selected_commit: wrap_next(a.selected_commit, a.commits@.len()), ..a })
    } else if k.key == Key::Char('k') || k.key == Key::Up {
        act is Done && b == (App { selected_commit: wrap_prev(a.selected_commit, a.commits@.len()), ..a })
    } else {
        act is Done && b == a
    }
}

/// Handles a key press in the commit picker.
pub fn handle_commit_select_key(app: &mut App, key: KeyPress) -> (act: KeyAction)
    requires
        old(app).wf(),
    ensures
        final(app).wf(),
        commit_select_key(*old(app), key, *final(app), act),
{
    let k = key.key;
    if k == Key::Esc {
        app.mode = Mode::Normal;
    } else if k == Key::Enter {
        if app.selected_commit < app.commits.len() {
            let hash = app.commits[app.selected_commit].0.clone();
            app.compare_branch = None;
            app.compare_range = None;
            return KeyAction::FetchFiles {
                source: FileSource::Commit(hash.clone()),
                then: AfterFiles::CompareCommit(hash),
            };
        }
        app.mode = Mode::Normal;
    } else if k == Key::Char('j') || k == Key::Down {
        if app.commits.len() > 0 {
            app.selected_commit = (app.selected_commit + 1) % app.commits.len();
        }
    } else if k == Key::Char('k') || k == Key::Up {
        if app.commits.len() > 0 {
            if app.selected_commit == 0 {
                app.selected_commit = app.commits.len() - 1;
            } else {
                app.selected_commit = app.selected_commit - 1;
            }
        }
    }
    KeyAction::Done
}

/// Handles a key press in the help: Esc or `q` closes it.
pub fn handle_help_key(app: &mut App, key: KeyPress) -> (act: KeyAction)
    ensures
        act is Done,
        *final(app) == if key.key == Key::Esc || key.key == Key::Char('q') {
            App { mode: Mode::Normal, ..*old(app) }
        } else {
            *old(app)
        },
{
    if key.key == Key::Esc || key.key == Key::Char('q') {
        app.mode = Mode::Normal;
    }
    KeyAction::Done
}

// ---------------------------------------------------------------------------
// Any mode
// ---------------------------------------------------------------------------

/// What the key press `k` does: Control-C quits in every mode; other keys
/// go to the handler of the mode.
pub open spec fn key_step(a: App, k: KeyPress, b: App, act: KeyAction) -> bool {
    if k.ctrl && k.key == Key::Char('c') {
        act is Quit && b == a
    } else {
        match a.mode {
            Mode::Normal => normal_key(a, k, b, act),
            Mode::SearchContent | Mode::SearchFilename => search_key(a, k, b, act),
            Mode::GlobalSearch => global_search_key(a, k, b, act),
            Mode::BranchSelect => branch_select_key(a, k, b, act),
            Mode::CommitSelect => commit_select_key(a, k, b, act),
            Mode::Help => act is Done && b == if k.key == Key::Esc || k.key == Key::Char('q') {
                App { mode: Mode::Normal, ..a }
            } else {
                a
            },
        }
    }
}

/// The key press can be handled: in normal mode the keys that step back
/// through the tree need a selection at most one past the last row.
pub open spec fn key_ok(a: App, k: KeyPress) -> bool {
    !(k.ctrl && k.key == Key::Char('c')) && a.mode == Mode::Normal ==> normal_key_ok(a, k)
}

/// Whether the key press can be handled (exec form of `key_ok`).
pub fn key_ok_check(app: &App, key: KeyPress) -> (r: bool)
    requires
        app.wf(),
    ensures
        r == key_ok(*app, key),
{
    if (key.ctrl && key.key == Key::Char('c')) || app.mode != Mode::Normal {
        return true;
    }
    if key.ctrl && (key.key == Key::Char('d') || key.key == Key::Char('u')) {
        return true;
    }
    let back_ok = app.files.len() == 0 || app.tree_entries.len() == 0 || app.selected_tree_item
        <= app.tree_entries.len();
    if key.key == Key::Char('[') && !back_ok {
        return false;
    }
    if (key.key == Key::Char('k') || key.key == Key::Up) && app.focus == Focus::Diff {
        if app.scroll_step == super::mode::ScrollStep::Hunk && find_prev_hunk(app).is_none() && !back_ok {
            return false;
        }
    }
    true
}

impl App {
    /// Handles a key press: Control-C quits, other keys go to the handler
    /// of the mode.
    pub fn handle_key(&mut self, key: KeyPress) -> (act: KeyAction)
        requires
            old(self).wf(),
            key_ok(*old(self), key),
        ensures
            final(self).wf(),
            key_step(*old(self), key, *final(self), act),
    {
        if key.ctrl && key.key == Key::Char('c') {
            return KeyAction::Quit;
        }
        match self.mode {
            Mode::Normal => handle_normal_key(self, key),
            Mode::SearchContent | Mode::SearchFilename => handle_search_key(self, key),
            Mode::GlobalSearch => handle_global_search_key(self, key),
            Mode::BranchSelect => handle_branch_select_key(self, key),
            Mode::CommitSelect => handle_commit_select_key(self, key),
            Mode::Help => handle_help_key(self, key),
        }
    }
}

// ---------------------------------------------------------------------------
// Outcomes of outside work
// ---------------------------------------------------------------------------

/// Takes the outcome of a `Copy` action: `ok` when the clipboard took the
/// text.
pub fn copy_done(app: &mut App, clean: bool, ok: bool)
    requires
        old(app).wf(),
    ensures
        final(app).wf(),
        final(app).message matches Some(m) && m@ == copy_message(clean, ok),
        *final(app) == adjusted(App { message: final(app).message, ..*old(app) }),
{
    report_copy(app, clean, ok);
    adjust_scroll(app);
}

/// The note after the untracked files were shown or hidden.
pub open spec fn untracked_note(shown: bool) -> Seq<char> {
    "Untracked files: "@ + if shown {
        "shown"@
    } else {
        "hidden"@
    }
}

fn reload_fetched(app: &mut App, files: Vec<FileChange>) -> (ok: bool)
    requires
        old(app).wf(),
        files_fit(files@),
    ensures
        ok ==> final(app).wf(),
        exists|m: App|
            reloaded(*old(app), files@, m) && ok == m.selection_ok() && *final(app) == if ok {
                adjusted(m)
            } else {
                m
            },
{
    app.finish_reload(files);
    let ghost m = *app;
    assert(reloaded(*old(app), files@, m));
    let ok = app.files.len() == 0 || app.selected_file < app.files.len();
    if !ok {
        assert(!m.selection_ok());
        assert(*app == m);
        return false;
    }
    adjust_scroll(app);
    assert(m.selection_ok());
    assert(*app == adjusted(m));
    true
}

fn untracked_reload_fetched(app: &mut App, files: Vec<FileChange>) -> (ok: bool)
    requires
        old(app).wf(),
        files_fit(files@),
    ensures
        ok ==> final(app).wf(),
        exists|m: App|
            reloaded(*old(app), files@, m) && ok == m.selection_ok() && if ok {
                final(app).message matches Some(t) && t@ == untracked_note(old(app).show_untracked)
                    && *final(app) == adjusted(App { message: final(app).message, ..m })
            } else {
                *final(app) == m
            },
{
    app.finish_reload(files);
    let ghost m = *app;
    assert(reloaded(*old(app), files@, m));
    let ok = app.files.len() == 0 || app.selected_file < app.files.len();
    if !ok {
        assert(!m.selection_ok());
        assert(*app == m);
        return false;
    }
    let label = if app.show_untracked {
        "shown"
    } else {
        "hidden"
    };
    app.show_message(crate::text::concat("Untracked files: ", label));
    let ghost noted = *app;
    adjust_scroll(app);
    assert(m.selection_ok());
    assert(noted == (App { message: noted.message, ..m }));
    assert(*app == adjusted(App { message: app.message, ..m }));
    true
}

/// Takes the files fetched for a `FetchFiles` action. The result is `false`
/// when a reload left the selection on no file although there are files:
/// the state cannot then be shown.
pub fn files_fetched(app: &mut App, then: AfterFiles, files: Vec<FileChange>) -> (ok: bool)
    requires
        old(app).wf(),
        files_fit(files@),
    ensures
        ok ==> final(app).wf(),
        match then {
            AfterFiles::Reload => exists|m: App|
                reloaded(*old(app), files@, m) && ok == m.selection_ok() && *final(app) == if ok {
                    adjusted(m)
                } else {
                    m
                },
            AfterFiles::ReloadUntracked => exists|m: App|
                reloaded(*old(app), files@, m) && ok == m.selection_ok() && if ok {
                    final(app).message matches Some(t) && t@ == untracked_note(old(app).show_untracked)
                        && *final(app) == adjusted(App { message: final(app).message, ..m })
                } else {
                    *final(app) == m
                },
            AfterFiles::CompareBranch(br) => ok && exists|m: App|
                branch_set(*old(app), br@, files@, m) && *final(app) == (App { mode: Mode::Normal, ..m }),
            AfterFiles::ClearBranch => ok && exists|m: App|
                branch_cleared(*old(app), files@, m) && *final(app) == adjusted(m),
            AfterFiles::CompareCommit(c) => ok && exists|m: App|
                commit_set(*old(app), c@, files@, m) && *final(app) == (App { mode: Mode::Normal, ..m }),
            AfterFiles::ClearCommit => ok && exists|m: App|
                commit_cleared(*old(app), files@, m) && *final(app) == adjusted(m),
            AfterFiles::ClearRange => ok && exists|m: App|
                range_cleared(*old(app), files@, m) && *final(app) == adjusted(m),
        },
{
    match then {
        AfterFiles::Reload => reload_fetched(app, files),
        AfterFiles::ReloadUntracked => untracked_reload_fetched(app, files),
        AfterFiles::CompareBranch(br) => {
            set_compare_branch(app, br.as_str(), files);
            app.mode = Mode::Normal;
            true
        },
        AfterFiles::ClearBranch => {
            clear_compare_branch(app, files);
            adjust_scroll(app);
            true
        },
        AfterFiles::CompareCommit(c) => {
            set_compare_commit(app, c.as_str(), files);
            app.mode = Mode::Normal;
            true
        },
        AfterFiles::ClearCommit => {
            clear_compare_commit(app, files);
            adjust_scroll(app);
            true
        },
        AfterFiles::ClearRange => {
            clear_compare_range(app, files);
            adjust_scroll(app);
            true
        },
    }
}

/// Takes the branches listed for a `FetchBranches` action.
pub fn branches_fetched(app: &mut App, branches: Vec<String>)
    requires
        old(app).wf(),
    ensures
        final(app).wf(),
        exists|m: App| branches_opened(*old(app), branches, m) && *final(app) == adjusted(m),
{
    enter_branch_select(app, branches);
    adjust_scroll(app);
}

/// Takes the commits listed for a `FetchCommits` action.
pub fn commits_fetched(app: &mut App, commits: Vec<(String, String)>)
    requires
        old(app).wf(),
    ensures
        final(app).wf(),
        exists|m: App| commits_opened(*old(app), commits, m) && *final(app) == adjusted(m),
{
    enter_commit_select(app, commits);
    adjust_scroll(app);
}

/// Takes the outcome of a `ReadFile` action (see `open_read_file`), then
/// leaves the global search.
pub fn global_file_read(app: &mut App, path: String, read: Option<(Vec<Hunk>, bool, bool)>)
    requires
        old(app).wf(),
    ensures
        final(app).wf(),
        exists|m: App| file_read(*old(app), path, read, m) && global_closed(m, *final(app)),
{
    open_read_file(app, path, read);
    close_global_search(app);
}

/// Whether fetched files fit the bounds that `files_fetched` needs.
pub fn fetched_files_fit(files: &Vec<FileChange>) -> (r: bool)
    ensures
        r == files_fit(files@),
{
    files_fit_check(files)
}

} // verus!
