//! Moving through the file tree and the diff.

use vstd::prelude::*;
use crate::git::{Hunk, HunkLine, LineType};
use super::{App, diff_rows, first_row_from, reselect, rows_view};
use super::mode::ScrollStep;
use super::tree::is_tree_of;

verus! {

// ---------------------------------------------------------------------------
// Small arithmetic
// ---------------------------------------------------------------------------

/// The smaller of two numbers.
pub open spec fn min_nat(a: int, b: int) -> int {
    if a < b {
        a
    } else {
        b
    }
}

/// `a - b`, or 0 when `b` is larger.
pub open spec fn sat_sub(a: int, b: int) -> int {
    if a >= b {
        a - b
    } else {
        0
    }
}

// ---------------------------------------------------------------------------
// The file tree
// ---------------------------------------------------------------------------

/// The selected file after the tree selection moved to row `item`: the
/// row's file when it lists one, else the old selection.
pub open spec fn file_at_row(app: App, item: int) -> usize {
    if 0 <= item < app.tree_entries.len() && app.tree_entries@[item].file_index is Some {
        app.tree_entries@[item].file_index->0
    } else {
        app.selected_file
    }
}

/// `app` with the tree selection at `item`, its file selected, and the
/// diff back at its top.
pub open spec fn at_row(app: App, item: int) -> App {
    App {
        selected_tree_item: item as usize,
        selected_file: file_at_row(app, item),
        diff_cursor: 0,
        diff_scroll: 0,
        ..app
    }
}

proof fn lemma_at_row_wf(app: App, item: int)
    requires
        app.wf(),
        0 <= item <= isize::MAX,
    ensures
        at_row(app, item).wf(),
{
    super::tree::lemma_tree_rows_index(app.tree_entries@, app.files@, app.expanded_dirs@, app.filter);
    if 0 <= item < app.tree_entries.len() && app.tree_entries@[item].file_index is Some {
        assert(app.tree_entries@[item].file_index->0 < app.files.len());
    }
}

/// Selects the file of the selected tree row, if it lists one.
pub fn update_selected_file_from_tree(app: &mut App)
    requires
        old(app).wf(),
    ensures
        final(app).wf(),
        *final(app) == (App { selected_file: file_at_row(*old(app), old(app).selected_tree_item as int), ..*old(app) }),
{
    proof {
        super::tree::lemma_tree_rows_index(app.tree_entries@, app.files@, app.expanded_dirs@, app.filter);
    }
    if app.selected_tree_item < app.tree_entries.len() {
        match app.tree_entries[app.selected_tree_item].file_index {
            Some(idx) => {
                app.selected_file = idx;
            },
            None => {},
        }
    }
}

/// `app` after `next_tree_item`: one row down, stopping at the last row.
pub open spec fn next_item(app: App) -> App {
    if app.tree_entries.len() == 0 {
        app
    } else {
        at_row(app, min_nat(app.selected_tree_item + 1, app.tree_entries.len() - 1))
    }
}

/// Moves the tree selection one row down, stopping at the last row.
pub fn next_tree_item(app: &mut App)
    requires
        old(app).wf(),
    ensures
        final(app).wf(),
        *final(app) == next_item(*old(app)),
{
    if app.tree_entries.len() == 0 {
        return;
    }
    let last = app.tree_entries.len() - 1;
    app.selected_tree_item = if app.selected_tree_item + 1 < last {
        app.selected_tree_item + 1
    } else {
        last
    };
    update_selected_file_from_tree(app);
    app.diff_cursor = 0;
    app.diff_scroll = 0;
    proof {
        lemma_at_row_wf(*old(app), min_nat(old(app).selected_tree_item + 1, old(app).tree_entries.len() - 1));
    }
}

/// Moves the tree selection one row up, stopping at the first row.
pub fn prev_tree_item(app: &mut App)
    requires
        old(app).wf(),
    ensures
        final(app).wf(),
        *final(app) == at_row(*old(app), sat_sub(old(app).selected_tree_item as int, 1)),
{
    app.selected_tree_item = if app.selected_tree_item > 0 {
        app.selected_tree_item - 1
    } else {
        0
    };
    update_selected_file_from_tree(app);
    app.diff_cursor = 0;
    app.diff_scroll = 0;
    proof {
        lemma_at_row_wf(*old(app), sat_sub(old(app).selected_tree_item as int, 1));
    }
}

/// `app` after `next_file`: at the next row that lists a file (no change
/// without files or rows).
pub open spec fn next_file_state(app: App) -> App {
    if app.files.len() == 0 || app.tree_entries.len() == 0 {
        app
    } else {
        at_row(app, next_file_row(app))
    }
}

/// The row that `next_file` moves to: the next row that lists a file, or
/// the last row; a selection at or past the last row stays.
pub open spec fn next_file_row(app: App) -> int {
    let n = app.tree_entries.len() as int;
    if app.selected_tree_item >= n - 1 {
        app.selected_tree_item as int
    } else {
        match first_row_from(app.tree_entries@, app.selected_tree_item + 1) {
            Some(j) => j,
            None => n - 1,
        }
    }
}

/// Moves the tree selection to the next row that lists a file.
pub fn next_file(app: &mut App)
    requires
        old(app).wf(),
    ensures
        final(app).wf(),
        *final(app) == next_file_state(*old(app)),
{
    if app.files.len() == 0 || app.tree_entries.len() == 0 {
        return;
    }
    let ghost start = app.selected_tree_item;
    let ghost rows = app.tree_entries@;
    let ghost pre = *app;
    let n = app.tree_entries.len();
    if app.selected_tree_item < n - 1 {
        let mut i = app.selected_tree_item + 1;
        while i < n - 1 && app.tree_entries[i].file_index.is_none()
            invariant
                start + 1 <= i <= n - 1,
                n == app.tree_entries.len(),
                app.tree_entries@ == rows,
                first_row_from(rows, start + 1) == first_row_from(rows, i as int),
            decreases n - i,
        {
            i = i + 1;
        }
        proof {
            if rows[i as int].file_index is None {
                assert(i == n - 1);
                assert(first_row_from(rows, i + 1) is None);
            }
        }
        app.selected_tree_item = i;
    }
    proof {
        lemma_at_row_wf(pre, next_file_row(pre));
    }
    update_selected_file_from_tree(app);
    app.diff_cursor = 0;
    app.diff_scroll = 0;
}

/// The last row before `k` that lists a file.
pub open spec fn last_row_before(rows: Seq<super::mode::TreeEntry>, k: int) -> Option<int>
    decreases k,
{
    if k <= 0 {
        None
    } else if rows[k - 1].file_index is Some {
        Some(k - 1)
    } else {
        last_row_before(rows, k - 1)
    }
}

/// `app` after `prev_file`: at the previous row that lists a file (no
/// change without files or rows).
pub open spec fn prev_file_state(app: App) -> App {
    if app.files.len() == 0 || app.tree_entries.len() == 0 {
        app
    } else {
        at_row(app, prev_file_row(app))
    }
}

/// The row that `prev_file` moves to: the previous row that lists a file,
/// or the first row.
pub open spec fn prev_file_row(app: App) -> int {
    match last_row_before(app.tree_entries@, app.selected_tree_item as int) {
        Some(j) => j,
        None => 0,
    }
}

/// The tree selection is at most one past the last row (stepping back from
/// further away reads past the rows).
pub open spec fn can_step_back(app: App) -> bool {
    app.files.len() == 0 || app.tree_entries.len() == 0 || app.selected_tree_item
        <= app.tree_entries.len()
}

/// Moves the tree selection to the previous row that lists a file.
pub fn prev_file(app: &mut App)
    requires
        old(app).wf(),
        can_step_back(*old(app)),
    ensures
        final(app).wf(),
        *final(app) == prev_file_state(*old(app)),
{
    if app.files.len() == 0 || app.tree_entries.len() == 0 {
        return;
    }
    let ghost rows = app.tree_entries@;
    let ghost pre = *app;
    let mut i = app.selected_tree_item;
    while i > 0 && app.tree_entries[i - 1].file_index.is_none()
        invariant
            i <= pre.selected_tree_item <= app.tree_entries.len(),
            app.tree_entries@ == rows,
            rows == pre.tree_entries@,
            last_row_before(rows, pre.selected_tree_item as int) == last_row_before(rows, i as int),
        decreases i,
    {
        i = i - 1;
    }
    let item = if i > 0 {
        i - 1
    } else {
        0
    };
    app.selected_tree_item = item;
    proof {
        lemma_at_row_wf(pre, prev_file_row(pre));
    }
    update_selected_file_from_tree(app);
    app.diff_cursor = 0;
    app.diff_scroll = 0;
}

/// The step of a page move: the height less two, at least one.
pub open spec fn page_step(h: usize) -> int {
    if h >= 3 {
        h - 2
    } else {
        1
    }
}

/// The step of a half-page move: half the height, at least one.
pub open spec fn half_step(h: usize) -> int {
    if h / 2 >= 1 {
        (h / 2) as int
    } else {
        1
    }
}

/// The row that a move down by `delta` rows reaches.
pub open spec fn row_down(app: App, delta: int) -> int {
    min_nat(app.selected_tree_item + delta, sat_sub(app.tree_entries.len() as int, 1))
}

fn tree_down(app: &mut App, delta: usize)
    requires
        old(app).wf(),
        1 <= delta <= isize::MAX,
    ensures
        final(app).wf(),
        *final(app) == at_row(*old(app), row_down(*old(app), delta as int)),
{
    let last = if app.tree_entries.len() > 0 {
        app.tree_entries.len() - 1
    } else {
        0
    };
    let target = app.selected_tree_item + delta;
    app.selected_tree_item = if target < last {
        target
    } else {
        last
    };
    proof {
        lemma_at_row_wf(*old(app), row_down(*old(app), delta as int));
    }
    update_selected_file_from_tree(app);
    app.diff_cursor = 0;
    app.diff_scroll = 0;
}

fn tree_up(app: &mut App, delta: usize)
    requires
        old(app).wf(),
    ensures
        final(app).wf(),
        *final(app) == at_row(*old(app), sat_sub(old(app).selected_tree_item as int, delta as int)),
{
    app.selected_tree_item = if app.selected_tree_item >= delta {
        app.selected_tree_item - delta
    } else {
        0
    };
    proof {
        lemma_at_row_wf(*old(app), sat_sub(old(app).selected_tree_item as int, delta as int));
    }
    update_selected_file_from_tree(app);
    app.diff_cursor = 0;
    app.diff_scroll = 0;
}

/// Moves the tree selection down by a page (the pane height less two).
pub fn page_tree_down(app: &mut App)
    requires
        old(app).wf(),
    ensures
        final(app).wf(),
        *final(app) == at_row(*old(app), row_down(*old(app), page_step(old(app).tree_visible_height))),
{
    let h = app.tree_visible_height;
    let delta = if h >= 3 {
        h - 2
    } else {
        1
    };
    tree_down(app, delta);
}

/// Moves the tree selection up by a page.
pub fn page_tree_up(app: &mut App)
    requires
        old(app).wf(),
    ensures
        final(app).wf(),
        *final(app) == at_row(
            *old(app),
            sat_sub(old(app).selected_tree_item as int, page_step(old(app).tree_visible_height)),
        ),
{
    let h = app.tree_visible_height;
    let delta = if h >= 3 {
        h - 2
    } else {
        1
    };
    tree_up(app, delta);
}

/// Moves the tree selection down by half a page.
pub fn half_page_tree_down(app: &mut App)
    requires
        old(app).wf(),
    ensures
        final(app).wf(),
        *final(app) == at_row(*old(app), row_down(*old(app), half_step(old(app).tree_visible_height))),
{
    let h = app.tree_visible_height / 2;
    let delta = if h >= 1 {
        h
    } else {
        1
    };
    tree_down(app, delta);
}

/// Moves the tree selection up by half a page.
pub fn half_page_tree_up(app: &mut App)
    requires
        old(app).wf(),
    ensures
        final(app).wf(),
        *final(app) == at_row(
            *old(app),
            sat_sub(old(app).selected_tree_item as int, half_step(old(app).tree_visible_height)),
        ),
{
    let h = app.tree_visible_height / 2;
    let delta = if h >= 1 {
        h
    } else {
        1
    };
    tree_up(app, delta);
}

// ---------------------------------------------------------------------------
// Expanding and collapsing directories
// ---------------------------------------------------------------------------

/// `app2` is `app` with the tree rebuilt for the expanded directories
/// `ex2`, the selection kept as a rebuild keeps it.
pub open spec fn rebuilt_with(app: App, ex: Set<Seq<char>>, sel_item: usize, app2: App) -> bool {
    &&& app2.expanded_dirs@ == ex
    &&& is_tree_of(app2.tree_entries@, app.files@, ex, app.filter)
    &&& (app2.selected_file, app2.selected_tree_item) == reselect(
        app2.tree_entries@,
        app.selected_file,
        sel_item,
    )
    &&& app2 == (App {
        expanded_dirs: app2.expanded_dirs,
        tree_entries: app2.tree_entries,
        selected_file: app2.selected_file,
        selected_tree_item: app2.selected_tree_item,
        ..app
    })
}

/// The selected row is a directory.
pub open spec fn toggles(a: App) -> bool {
    a.selected_tree_item < a.tree_entries.len() && a.tree_entries@[a.selected_tree_item as int].is_dir
}

/// The expanded directories with the selected directory toggled.
pub open spec fn toggled_dirs(a: App) -> Set<Seq<char>> {
    let d = a.tree_entries@[a.selected_tree_item as int].full_path@;
    if a.expanded_dirs@.contains(d) {
        a.expanded_dirs@.remove(d)
    } else {
        a.expanded_dirs@.insert(d)
    }
}

/// `b` is `a` after `toggle_dir`: with the selected directory toggled, the
/// tree rebuilt and the selection kept within the rows; no change when the
/// selected row is not a directory.
pub open spec fn dir_toggled(a: App, b: App) -> bool {
    &&& !toggles(a) ==> b == a
    &&& toggles(a) ==> exists|mid: App|
        rebuilt_with(a, toggled_dirs(a), a.selected_tree_item, mid) && b == (App {
            selected_tree_item: min_nat(mid.selected_tree_item as int, sat_sub(mid.tree_entries.len() as int, 1))
                as usize,
            ..mid
        })
}

/// Opens the selected directory when it is closed and closes it when it is
/// open; the selection is then kept within the rows.
pub fn toggle_dir(app: &mut App)
    requires
        old(app).wf(),
    ensures
        final(app).wf(),
        dir_toggled(*old(app), *final(app)),
{
    if app.selected_tree_item < app.tree_entries.len() && app.tree_entries[app.selected_tree_item].is_dir {
        let path = app.tree_entries[app.selected_tree_item].full_path.clone();
        if app.expanded_dirs.contains(path.as_str()) {
            app.expanded_dirs.remove(path.as_str());
        } else {
            app.expanded_dirs.insert(path);
        }
        app.rebuild_tree();
        let ghost mid = *app;
        let last = if app.tree_entries.len() > 0 {
            app.tree_entries.len() - 1
        } else {
            0
        };
        if app.selected_tree_item > last {
            app.selected_tree_item = last;
        }
        proof {
            let a = *old(app);
            let ex = toggled_dirs(a);
            assert(mid.expanded_dirs@ == ex);
            assert(rebuilt_with(a, ex, a.selected_tree_item, mid));
            assert(*app == (App {
                selected_tree_item: min_nat(
                    mid.selected_tree_item as int,
                    sat_sub(mid.tree_entries.len() as int, 1),
                ) as usize,
                ..mid
            }));
            assert(exists|m: App|
                rebuilt_with(a, ex, a.selected_tree_item, m) && *app == (App {
                    selected_tree_item: min_nat(
                        m.selected_tree_item as int,
                        sat_sub(m.tree_entries.len() as int, 1),
                    ) as usize,
                    ..m
                }));
        }
    }
}

/// The last row before `k` with depth `d` that is a directory.
pub open spec fn parent_row_before(rows: Seq<super::mode::TreeEntry>, k: int, d: usize) -> Option<int>
    decreases k,
{
    if k <= 0 {
        None
    } else if rows[k - 1].depth == d && rows[k - 1].is_dir {
        Some(k - 1)
    } else {
        parent_row_before(rows, k - 1, d)
    }
}

/// `b` is `a` after `collapse_dir_or_parent`: an open selected directory
/// is closed; else the nearest directory above the selected row is closed
/// and selected; else nothing changes.
pub open spec fn collapsed(a: App, b: App) -> bool {
    let k = a.selected_tree_item as int;
    if k >= a.tree_entries.len() {
        b == a
    } else {
        let e = a.tree_entries@[k];
        if e.is_dir && a.expanded_dirs@.contains(e.full_path@) {
            rebuilt_with(a, a.expanded_dirs@.remove(e.full_path@), a.selected_tree_item, b)
        } else {
            match parent_row_before(a.tree_entries@, k, sat_sub(e.depth as int, 1) as usize) {
                None => b == a,
                Some(j) => rebuilt_with(a, a.expanded_dirs@.remove(a.tree_entries@[j].full_path@), j as usize, b),
            }
        }
    }
}

/// Closes the selected directory when it is open; else closes the
/// directory above the selected row and selects it.
pub fn collapse_dir_or_parent(app: &mut App)
    requires
        old(app).wf(),
    ensures
        final(app).wf(),
        collapsed(*old(app), *final(app)),
{
    if app.selected_tree_item >= app.tree_entries.len() {
        return;
    }
    let k = app.selected_tree_item;
    if app.tree_entries[k].is_dir && app.expanded_dirs.contains(app.tree_entries[k].full_path.as_str()) {
        let path = app.tree_entries[k].full_path.clone();
        app.expanded_dirs.remove(path.as_str());
        app.rebuild_tree();
        return;
    }
    let d = app.tree_entries[k].depth;
    let target = if d >= 1 {
        d - 1
    } else {
        0
    };
    let ghost rows = app.tree_entries@;
    let mut i = k;
    while i > 0 && !(app.tree_entries[i - 1].depth == target && app.tree_entries[i - 1].is_dir)
        invariant
            i <= k < app.tree_entries.len(),
            app.tree_entries@ == rows,
            parent_row_before(rows, k as int, target) == parent_row_before(rows, i as int, target),
        decreases i,
    {
        i = i - 1;
    }
    if i == 0 {
        return;
    }
    let j = i - 1;
    let path = app.tree_entries[j].full_path.clone();
    app.expanded_dirs.remove(path.as_str());
    app.selected_tree_item = j;
    app.rebuild_tree();
}

// ---------------------------------------------------------------------------
// The diff cursor
// ---------------------------------------------------------------------------

/// The rows of the diff view never outnumber the bound on lengths.
pub proof fn lemma_diff_view_len(app: App)
    requires
        app.wf(),
    ensures
        app.diff_view().len() <= isize::MAX,
{
    if app.files.len() > 0 {
        let f = app.files@[app.selected_file as int];
        super::lemma_rows_texts(f.hunks@);
        assert(crate::search::hunk_texts(f.hunks@).len() <= isize::MAX);
    }
}

/// `app` with the diff cursor moved by `d` rows, kept on the rows.
pub open spec fn moved(app: App, d: int) -> App {
    let max = sat_sub(app.diff_view().len() as int, 1);
    App {
        diff_cursor: (if d > 0 {
            min_nat(app.diff_cursor + d, max)
        } else {
            sat_sub(app.diff_cursor as int, -d)
        }) as usize,
        ..app
    }
}

/// Moves the diff cursor by `delta` rows, staying on the rows.
pub fn move_diff_cursor(app: &mut App, delta: i32)
    requires
        old(app).wf(),
        delta != i32::MIN,
    ensures
        final(app).wf(),
        *final(app) == moved(*old(app), delta as int),
{
    let n = app.diff_lines().len();
    proof {
        lemma_diff_view_len(*app);
    }
    let max = if n > 0 {
        n - 1
    } else {
        0
    };
    if delta > 0 {
        let target = app.diff_cursor + delta as usize;
        app.diff_cursor = if target < max {
            target
        } else {
            max
        };
    } else {
        let back = (-delta) as usize;
        app.diff_cursor = if app.diff_cursor >= back {
            app.diff_cursor - back
        } else {
            0
        };
    }
}

/// Moves the diff cursor down by a page.
pub fn page_diff_down(app: &mut App)
    requires
        old(app).wf(),
    ensures
        final(app).wf(),
        *final(app) == moved(*old(app), page_step(old(app).diff_visible_height)),
{
    let h = app.diff_visible_height;
    let delta = if h >= 3 {
        h - 2
    } else {
        1
    };
    move_diff_cursor(app, delta as i32);
}

/// Moves the diff cursor up by a page.
pub fn page_diff_up(app: &mut App)
    requires
        old(app).wf(),
    ensures
        final(app).wf(),
        *final(app) == moved(*old(app), -page_step(old(app).diff_visible_height)),
{
    let h = app.diff_visible_height;
    let delta = if h >= 3 {
        h - 2
    } else {
        1
    };
    move_diff_cursor(app, -(delta as i32));
}

/// Moves the diff cursor down by half a page.
pub fn half_page_diff_down(app: &mut App)
    requires
        old(app).wf(),
    ensures
        final(app).wf(),
        *final(app) == moved(*old(app), half_step(old(app).diff_visible_height)),
{
    let h = app.diff_visible_height / 2;
    let delta = if h >= 1 {
        h
    } else {
        1
    };
    move_diff_cursor(app, delta as i32);
}

/// Moves the diff cursor up by half a page.
pub fn half_page_diff_up(app: &mut App)
    requires
        old(app).wf(),
    ensures
        final(app).wf(),
        *final(app) == moved(*old(app), -half_step(old(app).diff_visible_height)),
{
    let h = app.diff_visible_height / 2;
    let delta = if h >= 1 {
        h
    } else {
        1
    };
    move_diff_cursor(app, -(delta as i32));
}

/// The scroll offset that keeps the cursor about half a page from the top,
/// without scrolling past the end.
pub open spec fn scroll_for(app: App) -> usize {
    let h = app.diff_visible_height;
    min_nat(
        sat_sub(app.diff_cursor as int, (h / 2) as int),
        sat_sub(app.diff_view().len() as int, h as int),
    ) as usize
}

/// `app` with the diff scrolled so that the cursor sits about half a page
/// from the top (unchanged while the diff pane has no height).
pub open spec fn adjusted(app: App) -> App {
    if app.diff_visible_height == 0 {
        app
    } else {
        App { diff_scroll: scroll_for(app), ..app }
    }
}

/// Scrolling to the cursor keeps the cursor's row among the visible rows.
pub proof fn law_adjust_keeps_cursor_visible(app: App)
    requires
        app.diff_visible_height > 0,
        app.diff_cursor < app.diff_view().len(),
    ensures
        adjusted(app).diff_scroll <= app.diff_cursor < adjusted(app).diff_scroll + app.diff_visible_height,
{
}

/// Scrolls the diff so that the cursor sits about half a page from the top.
pub fn adjust_scroll(app: &mut App)
    requires
        old(app).wf(),
    ensures
        final(app).wf(),
        *final(app) == adjusted(*old(app)),
{
    let h = app.diff_visible_height;
    if h == 0 {
        return;
    }
    let half = h / 2;
    let target = if app.diff_cursor >= half {
        app.diff_cursor - half
    } else {
        0
    };
    let n = app.diff_lines().len();
    let max_scroll = if n >= h {
        n - h
    } else {
        0
    };
    app.diff_scroll = if target < max_scroll {
        target
    } else {
        max_scroll
    };
}

/// The hunk of the row under the cursor (0 past the rows).
pub open spec fn cursor_hunk(lines: Seq<(Seq<char>, LineType, usize)>, cursor: int) -> usize {
    if 0 <= cursor < lines.len() {
        lines[cursor].2
    } else {
        0
    }
}

/// The first header row at or after `from` of a hunk after `cur`.
pub open spec fn header_after(lines: Seq<(Seq<char>, LineType, usize)>, from: int, cur: usize) -> Option<int>
    decreases lines.len() - from,
{
    if from < 0 || from >= lines.len() {
        None
    } else if lines[from].1 == LineType::Header && lines[from].2 > cur {
        Some(from)
    } else {
        header_after(lines, from + 1, cur)
    }
}

/// The first row at or after `from` that is not a header.
pub open spec fn body_from(lines: Seq<(Seq<char>, LineType, usize)>, from: int) -> Option<int>
    decreases lines.len() - from,
{
    if from < 0 || from >= lines.len() {
        None
    } else if lines[from].1 != LineType::Header {
        Some(from)
    } else {
        body_from(lines, from + 1)
    }
}

/// Where the cursor lands for the hunk whose header is at `h`: the first
/// row after it that is not a header, else the header.
pub open spec fn landing(lines: Seq<(Seq<char>, LineType, usize)>, h: int) -> int {
    match body_from(lines, h + 1) {
        Some(i) => i,
        None => h,
    }
}

/// Where `next_hunk` moves the cursor, if anywhere.
pub open spec fn next_hunk_target(app: App) -> Option<int> {
    let lines = app.diff_view();
    if lines.len() == 0 {
        None
    } else {
        match header_after(lines, app.diff_cursor + 1, cursor_hunk(lines, app.diff_cursor as int)) {
            None => None,
            Some(h) => Some(landing(lines, h)),
        }
    }
}

/// The last header row before `k` of hunk `target`.
pub open spec fn header_before(lines: Seq<(Seq<char>, LineType, usize)>, k: int, target: usize) -> Option<int>
    decreases k,
{
    if k <= 0 {
        None
    } else if lines[k - 1].1 == LineType::Header && lines[k - 1].2 == target {
        Some(k - 1)
    } else {
        header_before(lines, k - 1, target)
    }
}

/// Where `prev_hunk` moves the cursor, if anywhere.
pub open spec fn prev_hunk_target(app: App) -> Option<int> {
    let lines = app.diff_view();
    let ch = cursor_hunk(lines, app.diff_cursor as int);
    if lines.len() == 0 || ch == 0 {
        None
    } else {
        match header_before(lines, min_nat(app.diff_cursor as int, lines.len() as int), (ch - 1) as usize) {
            None => None,
            Some(h) => Some(landing(lines, h)),
        }
    }
}

proof fn lemma_header_after(lines: Seq<(Seq<char>, LineType, usize)>, from: int, cur: usize)
    requires
        0 <= from,
    ensures
        header_after(lines, from, cur) matches Some(h) ==> from <= h < lines.len(),
    decreases lines.len() - from,
{
    if from < lines.len() && !(lines[from].1 == LineType::Header && lines[from].2 > cur) {
        lemma_header_after(lines, from + 1, cur);
    }
}

proof fn lemma_body_from(lines: Seq<(Seq<char>, LineType, usize)>, from: int)
    requires
        0 <= from,
    ensures
        body_from(lines, from) matches Some(h) ==> from <= h < lines.len(),
    decreases lines.len() - from,
{
    if from < lines.len() && lines[from].1 == LineType::Header {
        lemma_body_from(lines, from + 1);
    }
}

proof fn lemma_header_before(lines: Seq<(Seq<char>, LineType, usize)>, k: int, target: usize)
    requires
        k <= lines.len(),
    ensures
        header_before(lines, k, target) matches Some(h) ==> 0 <= h < k,
    decreases k,
{
    if k > 0 && !(lines[k - 1].1 == LineType::Header && lines[k - 1].2 == target) {
        lemma_header_before(lines, k - 1, target);
    }
}

/// The landing row for the header at `h` (exec form of `landing`).
fn landing_exec(lines: &Vec<super::mode::DiffLine>, h: usize) -> (r: usize)
    requires
        h < lines.len(),
    ensures
        r == landing(rows_view(lines@), h as int),
        r < lines.len(),
{
    let ghost lv = rows_view(lines@);
    let mut i = h + 1;
    while i < lines.len() && lines[i].line_type == LineType::Header
        invariant
            h + 1 <= i <= lines.len(),
            lv == rows_view(lines@),
            body_from(lv, h + 1) == body_from(lv, i as int),
        decreases lines.len() - i,
    {
        i = i + 1;
    }
    proof {
        lemma_body_from(lv, h + 1);
    }
    if i < lines.len() {
        i
    } else {
        h
    }
}

/// Moves the diff cursor into the next hunk; answers whether it moved.
pub fn next_hunk(app: &mut App) -> (moved_on: bool)
    requires
        old(app).wf(),
    ensures
        final(app).wf(),
        match next_hunk_target(*old(app)) {
            None => !moved_on && *final(app) == *old(app),
            Some(i) => moved_on && *final(app) == (App { diff_cursor: i as usize, ..*old(app) }),
        },
{
    let lines = app.diff_lines();
    let ghost lv = rows_view(lines@);
    proof {
        lemma_diff_view_len(*app);
    }
    if lines.len() == 0 {
        return false;
    }
    let cursor = app.diff_cursor;
    let current = if cursor < lines.len() {
        lines[cursor].hunk_index
    } else {
        0
    };
    let mut i = cursor + 1;
    while i < lines.len() && !(lines[i].line_type == LineType::Header && lines[i].hunk_index > current)
        invariant
            cursor + 1 <= i,
            lv == rows_view(lines@),
            current == cursor_hunk(lv, cursor as int),
            header_after(lv, cursor + 1, current) == header_after(lv, i as int, current),
        decreases lines.len() - i,
    {
        i = i + 1;
    }
    if i >= lines.len() {
        return false;
    }
    let target = landing_exec(&lines, i);
    app.diff_cursor = target;
    true
}

/// Where `prev_hunk` moves the cursor, if anywhere (exec form of
/// `prev_hunk_target`).
pub fn find_prev_hunk(app: &App) -> (r: Option<usize>)
    requires
        app.wf(),
    ensures
        match prev_hunk_target(*app) {
            None => r is None,
            Some(i) => r == Some(i as usize),
        },
        r matches Some(t) ==> (t as int) < app.diff_view().len(),
{
    let lines = app.diff_lines();
    let ghost lv = rows_view(lines@);
    proof {
        lemma_diff_view_len(*app);
    }
    if lines.len() == 0 {
        return None;
    }
    let cursor = app.diff_cursor;
    let current = if cursor < lines.len() {
        lines[cursor].hunk_index
    } else {
        0
    };
    if current == 0 {
        return None;
    }
    let target = current - 1;
    let mut k = if cursor < lines.len() {
        cursor
    } else {
        lines.len()
    };
    let ghost k0 = k as int;
    while k > 0 && !(lines[k - 1].line_type == LineType::Header && lines[k - 1].hunk_index == target)
        invariant
            k <= k0 <= lines.len(),
            lv == rows_view(lines@),
            header_before(lv, k0, target) == header_before(lv, k as int, target),
        decreases k,
    {
        k = k - 1;
    }
    if k == 0 {
        return None;
    }
    Some(landing_exec(&lines, k - 1))
}


/// Moves the diff cursor into the previous hunk; answers whether it moved.
pub fn prev_hunk(app: &mut App) -> (moved_on: bool)
    requires
        old(app).wf(),
    ensures
        final(app).wf(),
        match prev_hunk_target(*old(app)) {
            None => !moved_on && *final(app) == *old(app),
            Some(i) => moved_on && *final(app) == (App { diff_cursor: i as usize, ..*old(app) }),
        },
{
    proof {
        lemma_diff_view_len(*app);
    }
    match find_prev_hunk(app) {
        Some(t) => {
            app.diff_cursor = t;
            true
        },
        None => false,
    }
}

/// The rows of the first `m` hunks begin the rows of all hunks, and every
/// later row belongs to hunk `m` or a later one.
proof fn lemma_diff_rows_prefix(hs: Seq<Hunk>, m: int)
    requires
        0 <= m <= hs.len(),
        hs.len() <= usize::MAX,
    ensures
        diff_rows(hs.take(m)).len() <= diff_rows(hs).len(),
        diff_rows(hs).take(diff_rows(hs.take(m)).len() as int) == diff_rows(hs.take(m)),
        forall|j: int|
            diff_rows(hs.take(m)).len() <= j < diff_rows(hs).len() ==> (#[trigger] diff_rows(hs)[j]).2 >= m,
    decreases hs.len(),
{
    if m == hs.len() {
        assert(hs.take(m) =~= hs);
        assert(diff_rows(hs).take(diff_rows(hs).len() as int) =~= diff_rows(hs));
    } else {
        let d = hs.drop_last();
        lemma_diff_rows_prefix(d, m);
        assert(d.take(m) =~= hs.take(m));
        let n = (hs.len() - 1) as usize;
        let h = hs.last();
        let a = diff_rows(d);
        let b = seq![(h.header@, LineType::Header, n)] + h.lines@.map_values(
            |l: HunkLine| (l.content@, l.line_type, n),
        );
        assert(diff_rows(hs) =~= a + b);
        let p = diff_rows(hs.take(m)).len() as int;
        assert(diff_rows(hs).take(p) =~= a.take(p));
        assert forall|j: int| p <= j < diff_rows(hs).len() implies (#[trigger] diff_rows(hs)[j]).2 >= m by {
            if j < a.len() {
                assert(diff_rows(hs)[j] == a[j]);
            } else {
                assert(diff_rows(hs)[j] == b[j - a.len()]);
            }
        }
    }
}

/// The rows of hunk `k`: its header at the row after the rows of the
/// hunks before it, then its lines.
proof fn lemma_diff_rows_hunk(hs: Seq<Hunk>, k: int)
    requires
        0 <= k < hs.len(),
        hs.len() <= usize::MAX,
    ensures
        diff_rows(hs.take(k + 1)).len() == diff_rows(hs.take(k)).len() + 1 + hs[k].lines@.len(),
        diff_rows(hs.take(k + 1)).len() <= diff_rows(hs).len(),
        diff_rows(hs)[diff_rows(hs.take(k)).len() as int] == (hs[k].header@, LineType::Header, k as usize),
        forall|j: int|
            0 <= j < hs[k].lines@.len() ==> #[trigger] diff_rows(hs)[diff_rows(hs.take(k)).len() + 1 + j] == (
                hs[k].lines@[j].content@,
                hs[k].lines@[j].line_type,
                k as usize,
            ),
{
    lemma_diff_rows_prefix(hs, k + 1);
    let t = hs.take(k + 1);
    assert(t.drop_last() =~= hs.take(k));
    assert(t.last() == hs[k]);
    let a = diff_rows(hs.take(k));
    let b = seq![(hs[k].header@, LineType::Header, k as usize)] + hs[k].lines@.map_values(
        |l: HunkLine| (l.content@, l.line_type, k as usize),
    );
    assert(diff_rows(t) =~= a + b);
    let r = diff_rows(hs);
    assert(r[a.len() as int] == r.take(diff_rows(t).len() as int)[a.len() as int]);
    assert forall|j: int| 0 <= j < hs[k].lines@.len() implies #[trigger] r[a.len() + 1 + j] == (
        hs[k].lines@[j].content@,
        hs[k].lines@[j].line_type,
        k as usize,
    ) by {
        assert(r[a.len() + 1 + j] == r.take(diff_rows(t).len() as int)[a.len() + 1 + j]);
        assert((a + b)[a.len() + 1 + j] == b[1 + j]);
    }
}

proof fn lemma_header_after_at(lines: Seq<(Seq<char>, LineType, usize)>, from: int, to: int, cur: usize)
    requires
        0 <= from <= to < lines.len(),
        lines[to].1 == LineType::Header && lines[to].2 > cur,
        forall|j: int| from <= j < to ==> !((#[trigger] lines[j]).1 == LineType::Header && lines[j].2 > cur),
    ensures
        header_after(lines, from, cur) == Some(to),
    decreases to - from,
{
    if from < to {
        assert(!(lines[from].1 == LineType::Header && lines[from].2 > cur));
        lemma_header_after_at(lines, from + 1, to, cur);
    }
}

proof fn lemma_header_before_at(lines: Seq<(Seq<char>, LineType, usize)>, k: int, at: int, target: usize)
    requires
        0 <= at < k <= lines.len(),
        lines[at].1 == LineType::Header && lines[at].2 == target,
        forall|j: int| at < j < k ==> !((#[trigger] lines[j]).1 == LineType::Header && lines[j].2 == target),
    ensures
        header_before(lines, k, target) == Some(at),
    decreases k - at,
{
    if k - 1 > at {
        assert(!(lines[k - 1].1 == LineType::Header && lines[k - 1].2 == target));
        lemma_header_before_at(lines, k - 1, at, target);
    }
}

/// From the first line of a hunk, moving to the next hunk and back returns
/// to that line (for hunks whose lines are not headers, as parsed hunks
/// are, and two neighbouring hunks that each have a line).
pub proof fn law_prev_hunk_undoes_next(app: App, k: int)
    requires
        app.files.len() > 0,
        !app.files@[app.selected_file as int].is_binary,
        ({
            let hs = app.files@[app.selected_file as int].hunks@;
            &&& hs.len() <= usize::MAX
            &&& diff_rows(hs).len() <= usize::MAX
            &&& 0 <= k && k + 1 < hs.len()
            &&& hs[k].lines@.len() > 0
            &&& hs[k + 1].lines@.len() > 0
            &&& forall|i: int, j: int|
                0 <= i < hs.len() && 0 <= j < hs[i].lines@.len() ==> (#[trigger] hs[i].lines@[j]).line_type
                    != LineType::Header
            &&& app.diff_cursor == diff_rows(hs.take(k)).len() + 1
        }),
    ensures
        ({
            let hs = app.files@[app.selected_file as int].hunks@;
            let t = diff_rows(hs.take(k + 1)).len() as int + 1;
            &&& next_hunk_target(app) == Some(t)
            &&& prev_hunk_target(App { diff_cursor: t as usize, ..app }) == Some(app.diff_cursor as int)
        }),
{
    let hs = app.files@[app.selected_file as int].hunks@;
    let r = diff_rows(hs);
    let pk = diff_rows(hs.take(k)).len() as int;
    let pk1 = diff_rows(hs.take(k + 1)).len() as int;
    lemma_diff_rows_hunk(hs, k);
    lemma_diff_rows_hunk(hs, k + 1);
    lemma_diff_rows_prefix(hs, k + 1);
    let l0 = hs[k].lines@[0];
    assert(r[pk + 1 + 0] == (l0.content@, l0.line_type, k as usize));
    let m0 = hs[k + 1].lines@[0];
    assert(r[pk1 + 1 + 0] == (m0.content@, m0.line_type, (k + 1) as usize));
    assert(app.diff_view() == r);
    let c = app.diff_cursor as int;
    assert(cursor_hunk(r, c) == k as usize);
    assert forall|j: int| c + 1 <= j < pk1 implies !((#[trigger] r[j]).1 == LineType::Header && r[j].2 > k as usize) by {
        let i = j - pk - 1;
        assert(r[pk + 1 + i] == (hs[k].lines@[i].content@, hs[k].lines@[i].line_type, k as usize));
    }
    lemma_header_after_at(r, c + 1, pk1, k as usize);
    assert(body_from(r, pk1 + 1) == Some(pk1 + 1));
    let t = pk1 + 1;
    let b = App { diff_cursor: t as usize, ..app };
    assert(b.diff_view() == r);
    assert(cursor_hunk(r, t) == (k + 1) as usize);
    assert(min_nat(t, r.len() as int) == t);
    assert forall|j: int| pk < j < t implies !((#[trigger] r[j]).1 == LineType::Header && r[j].2 == k as usize) by {
        if j < pk1 {
            let i = j - pk - 1;
            assert(r[pk + 1 + i] == (hs[k].lines@[i].content@, hs[k].lines@[i].line_type, k as usize));
        }
    }
    lemma_header_before_at(r, t, pk, k as usize);
    assert(body_from(r, pk + 1) == Some(pk + 1));
}

/// The last row of hunk `hk` that is (or, with `header` false, is not) a
/// header, among the first `k` rows.
pub open spec fn last_of_hunk(lines: Seq<(Seq<char>, LineType, usize)>, k: int, hk: usize, header: bool) -> Option<int>
    decreases k,
{
    if k <= 0 {
        None
    } else if lines[k - 1].2 == hk && (lines[k - 1].1 == LineType::Header) == header {
        Some(k - 1)
    } else {
        last_of_hunk(lines, k - 1, hk, header)
    }
}

proof fn lemma_last_of_hunk(lines: Seq<(Seq<char>, LineType, usize)>, k: int, hk: usize, header: bool)
    requires
        k <= lines.len(),
    ensures
        last_of_hunk(lines, k, hk, header) matches Some(h) ==> 0 <= h < k,
    decreases k,
{
    if k > 0 && !(lines[k - 1].2 == hk && (lines[k - 1].1 == LineType::Header) == header) {
        lemma_last_of_hunk(lines, k - 1, hk, header);
    }
}

/// The cursor in the last hunk of the diff: its last row that is not a
/// header, else its header.
pub open spec fn last_hunk_cursor(app: App) -> usize {
    let lines = app.diff_view();
    if lines.len() == 0 {
        app.diff_cursor
    } else {
        let hk = lines.last().2;
        match last_of_hunk(lines, lines.len() as int, hk, false) {
            Some(i) => i as usize,
            None => match last_of_hunk(lines, lines.len() as int, hk, true) {
                Some(i) => i as usize,
                None => app.diff_cursor,
            },
        }
    }
}

fn last_of_hunk_exec(lines: &Vec<super::mode::DiffLine>, hk: usize, header: bool) -> (r: Option<usize>)
    ensures
        match r {
            Some(i) => last_of_hunk(rows_view(lines@), lines.len() as int, hk, header) == Some(i as int),
            None => last_of_hunk(rows_view(lines@), lines.len() as int, hk, header) is None,
        },
{
    let ghost lv = rows_view(lines@);
    let mut k = lines.len();
    while k > 0 && !(lines[k - 1].hunk_index == hk && (lines[k - 1].line_type == LineType::Header) == header)
        invariant
            k <= lines.len(),
            lv == rows_view(lines@),
            last_of_hunk(lv, lines.len() as int, hk, header) == last_of_hunk(lv, k as int, hk, header),
        decreases k,
    {
        k = k - 1;
    }
    if k == 0 {
        None
    } else {
        Some(k - 1)
    }
}

/// Moves to the previous file and puts the cursor in its last hunk.
pub fn prev_file_last_hunk(app: &mut App)
    requires
        old(app).wf(),
        can_step_back(*old(app)),
    ensures
        final(app).wf(),
        ({
            let a = if old(app).files.len() == 0 || old(app).tree_entries.len() == 0 {
                *old(app)
            } else {
                at_row(*old(app), prev_file_row(*old(app)))
            };
            *final(app) == (App { diff_cursor: last_hunk_cursor(a), ..a })
        }),
{
    prev_file(app);
    let lines = app.diff_lines();
    let ghost lv = rows_view(lines@);
    proof {
        lemma_diff_view_len(*app);
        lemma_last_of_hunk(lv, lv.len() as int, if lv.len() > 0 { lv.last().2 } else { 0 }, false);
        lemma_last_of_hunk(lv, lv.len() as int, if lv.len() > 0 { lv.last().2 } else { 0 }, true);
    }
    if lines.len() == 0 {
        return;
    }
    let hk = lines[lines.len() - 1].hunk_index;
    match last_of_hunk_exec(&lines, hk, false) {
        Some(i) => {
            app.diff_cursor = i;
            return;
        },
        None => {},
    }
    match last_of_hunk_exec(&lines, hk, true) {
        Some(i) => {
            app.diff_cursor = i;
        },
        None => {},
    }
}

/// `app` after a scroll down by its scroll step: to the next hunk, past the
/// last hunk to the next file; one line; or a page.
pub open spec fn scrolled_down(app: App) -> App {
    match app.scroll_step {
        ScrollStep::Hunk => match next_hunk_target(app) {
            Some(i) => App { diff_cursor: i as usize, ..app },
            None => next_file_state(app),
        },
        ScrollStep::Line => moved(app, 1),
        ScrollStep::Page => moved(app, page_step(app.diff_visible_height)),
    }
}

/// `app` after a scroll up by its scroll step: to the previous hunk, before
/// the first hunk to the last hunk of the previous file; one line; or a
/// page.
pub open spec fn scrolled_up(app: App) -> App {
    match app.scroll_step {
        ScrollStep::Hunk => match prev_hunk_target(app) {
            Some(i) => App { diff_cursor: i as usize, ..app },
            None => {
                let a = prev_file_state(app);
                App { diff_cursor: last_hunk_cursor(a), ..a }
            },
        },
        ScrollStep::Line => moved(app, -1),
        ScrollStep::Page => moved(app, -page_step(app.diff_visible_height)),
    }
}

/// Scrolls the diff down by the current scroll step; a hunk step past the
/// last hunk moves on to the next file.
pub fn scroll_diff_down(app: &mut App)
    requires
        old(app).wf(),
    ensures
        final(app).wf(),
        *final(app) == scrolled_down(*old(app)),
{
    match app.scroll_step {
        ScrollStep::Hunk => {
            if !next_hunk(app) {
                next_file(app);
            }
        },
        ScrollStep::Line => move_diff_cursor(app, 1),
        ScrollStep::Page => page_diff_down(app),
    }
}

/// Scrolling up in hunk steps can reach the previous file only from a tree
/// selection at most one past the last row.
pub open spec fn scroll_up_ok(app: App) -> bool {
    app.scroll_step == ScrollStep::Hunk && prev_hunk_target(app) is None ==> can_step_back(app)
}

/// Scrolls the diff up by the current scroll step; a hunk step before the
/// first hunk moves to the last hunk of the previous file.
pub fn scroll_diff_up(app: &mut App)
    requires
        old(app).wf(),
        scroll_up_ok(*old(app)),
    ensures
        final(app).wf(),
        *final(app) == scrolled_up(*old(app)),
{
    match app.scroll_step {
        ScrollStep::Hunk => {
            if !prev_hunk(app) {
                prev_file_last_hunk(app);
            }
        },
        ScrollStep::Line => move_diff_cursor(app, -1),
        ScrollStep::Page => page_diff_up(app),
    }
}

proof fn lemma_last_of_hunk_is_last(lines: Seq<(Seq<char>, LineType, usize)>, k: int, hk: usize, header: bool)
    requires
        k <= lines.len(),
    ensures
        match last_of_hunk(lines, k, hk, header) {
            Some(i) => 0 <= i < k && lines[i].2 == hk && (lines[i].1 == LineType::Header) == header && forall|j: int|
                i < j < k ==> !((#[trigger] lines[j]).2 == hk && (lines[j].1 == LineType::Header) == header),
            None => forall|j: int| 0 <= j < k ==> !((#[trigger] lines[j]).2 == hk && (lines[j].1 == LineType::Header) == header),
        },
    decreases k,
{
    if k > 0 && !(lines[k - 1].2 == hk && (lines[k - 1].1 == LineType::Header) == header) {
        lemma_last_of_hunk_is_last(lines, k - 1, hk, header);
    }
}

/// A hunk step up from the first hunk of a file lands in the last hunk of
/// the previous file's diff: on the last row of that hunk that is not a
/// header, or on its header when it has no other row.
pub proof fn law_scroll_up_lands_in_last_hunk(app: App)
    requires
        app.scroll_step == ScrollStep::Hunk,
        prev_hunk_target(app) is None,
        0 < scrolled_up(app).diff_view().len() <= usize::MAX,
    ensures
        ({
            let b = scrolled_up(app);
            let lines = b.diff_view();
            let c = b.diff_cursor as int;
            let hk = lines.last().2;
            &&& 0 <= c < lines.len()
            &&& lines[c].2 == hk
            &&& (exists|j: int| 0 <= j < lines.len() && #[trigger] lines[j].2 == hk && lines[j].1 != LineType::Header)
                ==> lines[c].1 != LineType::Header && forall|j: int|
                c < j < lines.len() ==> !((#[trigger] lines[j]).2 == hk && lines[j].1 != LineType::Header)
        }),
{
    let a = prev_file_state(app);
    let b = scrolled_up(app);
    assert(b == App { diff_cursor: last_hunk_cursor(a), ..a });
    let lines = a.diff_view();
    assert(b.diff_view() == lines);
    let hk = lines.last().2;
    let n = lines.len() as int;
    lemma_last_of_hunk_is_last(lines, n, hk, false);
    lemma_last_of_hunk_is_last(lines, n, hk, true);
    assert(lines[n - 1].2 == hk);
    if last_of_hunk(lines, n, hk, false) is None {
        assert(lines[n - 1].1 == LineType::Header);
        assert(last_of_hunk(lines, n, hk, true) is Some);
    }
}

} // verus!
