//! Searching from the viewer state: the search query, moving between hits,
//! and the global search.

use vstd::prelude::*;
use vstd::string::StrSliceExecFns;
use crate::text::{chars_of, find, find_exec, trim, trim_span, lemma_find_from};
use crate::git::{FileChange, Hunk};
use crate::search::{GlobalMatch, SearchResult, content_results, filename_results, results_view, search_content_filtered, search_filename};
use crate::order::sorted_by_key;
use super::{App, files_fit, row_of_file, find_row_of_file, file_with_path, find_file_with_path};
use super::mode::{Focus, Mode};
use super::navigation::{adjust_scroll, scroll_for};

verus! {

/// The parts of a content query `filter>content`: the trimmed glob before
/// the first `>` (none when empty or when there is no `>`), and the trimmed
/// text after it (the whole query when there is no `>`).
pub open spec fn query_parts(q: Seq<char>) -> (Option<Seq<char>>, Seq<char>) {
    match find(q, seq!['>']) {
        None => (None, q),
        Some(p) => {
            let f = trim(q.take(p));
            (
                if f.len() == 0 {
                    None
                } else {
                    Some(f)
                },
                trim(q.skip(p + 1)),
            )
        },
    }
}

/// Splits a content query into its file glob and its text.
pub fn parse_search_query(query: &str) -> (r: (Option<&str>, &str))
    ensures
        (match r.0 {
            Some(f) => Some(f@),
            None => None,
        }, r.1@) == query_parts(query@),
{
    let v = chars_of(query);
    let gt = chars_of(">");
    assert(gt@ =~= seq!['>']) by {
        reveal_strlit(">");
    }
    match find_exec(v.as_slice(), gt.as_slice(), 0) {
        None => (None, query),
        Some(p) => {
            proof {
                lemma_find_from(v@, gt@, 0);
                assert(crate::text::matches_at(v@, gt@, p as int));
                assert(v@.len() == v.len());
            }
            let (fa, fb) = trim_span(v.as_slice(), 0, p);
            let (ca, cb) = trim_span(v.as_slice(), p + 1, v.len());
            assert(v@.subrange(0, p as int) =~= v@.take(p as int));
            assert(v@.subrange(p + 1, v@.len() as int) =~= v@.skip(p + 1));
            let filter = query.substring_char(fa, fb);
            let content = query.substring_char(ca, cb);
            if fa == fb {
                (None, content)
            } else {
                (Some(filter), content)
            }
        },
    }
}

/// `app` after the jump to its selected search hit: the hit's file and its
/// row selected, the cursor on the hit's line (the top for file hits), the
/// diff scrolled to it, and the focus on the diff when `change_focus`.
pub open spec fn jumped(app: App, change_focus: bool) -> App {
    let k = app.selected_search_result as int;
    if k < app.search_results.len() && (app.search_results@[k].file_index as int) < app.files.len() {
        let hit = app.search_results@[k];
        let fi = hit.file_index;
        let a1 = App {
            selected_file: fi,
            selected_tree_item: match row_of_file(app.tree_entries@, fi) {
                Some(j) => j as usize,
                None => app.selected_tree_item,
            },
            diff_cursor: match hit.line_number {
                Some(l) => l,
                None => 0,
            },
            ..app
        };
        let a2 = if a1.diff_visible_height == 0 {
            a1
        } else {
            App { diff_scroll: scroll_for(a1), ..a1 }
        };
        if change_focus {
            App { focus: Focus::Diff, ..a2 }
        } else {
            a2
        }
    } else {
        app
    }
}

/// Jumps to the selected search hit.
pub fn jump_to_search_result(app: &mut App, change_focus: bool)
    requires
        old(app).wf(),
    ensures
        final(app).wf(),
        *final(app) == jumped(*old(app), change_focus),
{
    let k = app.selected_search_result;
    if k < app.search_results.len() && app.search_results[k].file_index < app.files.len() {
        let fi = app.search_results[k].file_index;
        let line = app.search_results[k].line_number;
        app.selected_file = fi;
        match find_row_of_file(&app.tree_entries, fi) {
            Some(j) => {
                app.selected_tree_item = j;
            },
            None => {},
        }
        app.diff_cursor = match line {
            Some(l) => l,
            None => 0,
        };
        adjust_scroll(app);
        if change_focus {
            app.focus = Focus::Diff;
        }
    }
}

/// The hits and the remembered query that a search over `app` gives: by
/// content (with the optional glob) or by file name, per the mode.
pub open spec fn search_outcome(app: App) -> (Seq<(usize, Option<usize>)>, Option<Seq<char>>) {
    let q = app.search_query@;
    match app.mode {
        Mode::SearchContent => {
            let parts = query_parts(q);
            if parts.1.len() == 0 {
                (Seq::empty(), Some(Seq::empty()))
            } else {
                (content_results(app.files@, parts.1, parts.0), Some(parts.1))
            }
        },
        Mode::SearchFilename => (filename_results(app.files@, q), Some(q)),
        _ => (Seq::empty(), None),
    }
}

/// `b` is `a` after a search: an empty query only clears the hits; else the
/// hits are those of `search_outcome`, the query to highlight is
/// remembered, and the first hit is jumped to, or, with no hits and
/// `show`, the status bar says so.
pub open spec fn searched(a: App, b: App, show: bool) -> bool {
    &&& a.search_query@.len() == 0 ==> b.search_results@.len() == 0 && b == (App {
        search_results: b.search_results,
        ..a
    })
    &&& a.search_query@.len() > 0 ==> ({
        let out = search_outcome(a);
        let base = App {
            search_results: b.search_results,
            last_search_query: b.last_search_query,
            selected_search_result: 0,
            ..a
        };
        &&& results_view(b.search_results@) == out.0
        &&& match out.1 {
            Some(l) => b.last_search_query@ == l,
            None => b.last_search_query == a.last_search_query,
        }
        &&& if out.0.len() > 0 {
            b == jumped(base, false)
        } else if show {
            b.message matches Some(m) && m@ == "No results found"@ && b == (App { message: b.message, ..base })
        } else {
            b == base
        }
    })
}

/// Runs the search for the query in the state's mode, selects the first hit
/// and jumps to it; with no hits, says so in the status bar when
/// `show_no_results_msg`. An empty query only clears the hits.
pub fn perform_search(app: &mut App, show_no_results_msg: bool)
    requires
        old(app).wf(),
    ensures
        final(app).wf(),
        searched(*old(app), *final(app), show_no_results_msg),
{
    if app.search_query.as_str().is_empty() {
        app.search_results.clear();
        return;
    }
    let results = match app.mode {
        Mode::SearchContent => {
            let q = app.search_query.clone();
            let (filter, content) = parse_search_query(q.as_str());
            if content.is_empty() {
                app.last_search_query = String::new();
                Vec::new()
            } else {
                app.last_search_query = content.to_owned();
                proof {
                    crate::search::lemma_content_results_bounds(app.files@, content@, match filter {
                        Some(g) => Some(g@),
                        None => None,
                    });
                }
                search_content_filtered(app.files.as_slice(), content, filter)
            }
        },
        Mode::SearchFilename => {
            app.last_search_query = app.search_query.clone();
            proof {
                crate::search::law_filename_results_bounds(app.files@, app.search_query@);
            }
            search_filename(app.files.as_slice(), app.search_query.as_str())
        },
        _ => Vec::new(),
    };
    let ghost out = search_outcome(*old(app));
    assert(results_view(results@) == out.0) by {
        if results@.len() == 0 {
            assert(results_view(results@) =~= Seq::empty());
        }
    }
    app.search_results = results;
    app.selected_search_result = 0;
    proof {
        assert forall|k: int| 0 <= k < app.search_results.len() implies ((#[trigger] app.search_results@[k]).line_number matches Some(j)
            ==> j <= isize::MAX) by {
            assert(results_view(app.search_results@)[k] == app.search_results@[k]@);
        }
    }
    if app.search_results.len() > 0 {
        jump_to_search_result(app, false);
    } else if show_no_results_msg {
        app.show_message("No results found".to_owned());
    }
}

/// Runs the search and reports when there are no hits (the query was
/// confirmed).
pub fn execute_search(app: &mut App)
    requires
        old(app).wf(),
    ensures
        final(app).wf(),
        searched(*old(app), *final(app), true),
{
    perform_search(app, true);
}

/// Runs the search as the query is typed, without the no-hits report.
pub fn incremental_search(app: &mut App)
    requires
        old(app).wf(),
    ensures
        final(app).wf(),
        searched(*old(app), *final(app), false),
{
    perform_search(app, false);
}

/// `app` with the next hit selected (after the last, the first) and jumped
/// to; unchanged without hits.
pub open spec fn next_result(app: App) -> App {
    if app.search_results.len() == 0 {
        app
    } else {
        jumped(
            App {
                selected_search_result: ((app.selected_search_result + 1) % (app.search_results.len() as int)) as usize,
                ..app
            },
            true,
        )
    }
}

/// `app` with the previous hit selected (before the first, the last) and
/// jumped to; unchanged without hits.
pub open spec fn prev_result(app: App) -> App {
    if app.search_results.len() == 0 {
        app
    } else {
        jumped(
            App {
                selected_search_result: if app.selected_search_result == 0 {
                    (app.search_results.len() - 1) as usize
                } else {
                    (app.selected_search_result - 1) as usize
                },
                ..app
            },
            true,
        )
    }
}

/// Selects the next hit, wrapping to the first, and jumps to it.
pub fn next_search_result(app: &mut App)
    requires
        old(app).wf(),
    ensures
        final(app).wf(),
        *final(app) == next_result(*old(app)),
{
    if app.search_results.len() == 0 {
        return;
    }
    app.selected_search_result = (app.selected_search_result + 1) % app.search_results.len();
    jump_to_search_result(app, true);
}

/// Selects the previous hit, wrapping to the last, and jumps to it.
pub fn prev_search_result(app: &mut App)
    requires
        old(app).wf(),
    ensures
        final(app).wf(),
        *final(app) == prev_result(*old(app)),
{
    if app.search_results.len() == 0 {
        return;
    }
    if app.selected_search_result == 0 {
        app.selected_search_result = app.search_results.len() - 1;
    } else {
        app.selected_search_result = app.selected_search_result - 1;
    }
    jump_to_search_result(app, true);
}

/// The glob of the query being typed, shown while searching by content.
pub open spec fn filter_text(app: App) -> Option<Seq<char>> {
    if app.mode == Mode::SearchContent {
        query_parts(app.search_query@).0
    } else {
        None
    }
}

impl App {
    /// The file glob of the content query being typed, if any.
    pub fn search_filter_text(&self) -> (r: Option<String>)
        ensures
            match r {
                Some(t) => filter_text(*self) == Some(t@),
                None => filter_text(*self) is None,
            },
    {
        if self.mode == Mode::SearchContent {
            let (filter, _) = parse_search_query(self.search_query.as_str());
            match filter {
                Some(f) => Some(f.to_owned()),
                None => None,
            }
        } else {
            None
        }
    }
}

/// Takes the outcome of a global search: `None` when the query is empty
/// (the matches are cleared), the matches (the first selected), or the
/// text of a regex error (reported in the status bar).
pub fn incremental_global_search(app: &mut App, outcome: Option<Result<Vec<GlobalMatch>, String>>)
    requires
        old(app).wf(),
        outcome is None <==> old(app).global_search_query@.len() == 0,
    ensures
        final(app).wf(),
        match outcome {
            None => final(app).global_search_results@.len() == 0 && *final(app) == (App {
                global_search_results: final(app).global_search_results,
                ..*old(app)
            }),
            Some(Ok(ms)) => *final(app) == (App {
                global_search_results: ms,
                global_search_selected: 0,
                ..*old(app)
            }),
            Some(Err(e)) => final(app).message matches Some(m) && m@ == "Regex error: "@ + e@
                && *final(app) == (App { message: final(app).message, ..*old(app) }),
        },
{
    match outcome {
        None => {
            app.global_search_results.clear();
        },
        Some(Ok(ms)) => {
            app.global_search_results = ms;
            app.global_search_selected = 0;
        },
        Some(Err(e)) => {
            let m = crate::text::concat("Regex error: ", e.as_str());
            app.show_message(m);
        },
    }
}

/// `app` with the next global match selected (after the last, the first).
pub open spec fn next_global(app: App) -> App {
    if app.global_search_results.len() == 0 {
        app
    } else {
        App {
            global_search_selected: ((app.global_search_selected + 1) % (app.global_search_results.len() as int))
                as usize,
            ..app
        }
    }
}

/// `app` with the previous global match selected (before the first, the
/// last).
pub open spec fn prev_global(app: App) -> App {
    if app.global_search_results.len() == 0 {
        app
    } else {
        App {
            global_search_selected: if app.global_search_selected == 0 {
                (app.global_search_results.len() - 1) as usize
            } else {
                (app.global_search_selected - 1) as usize
            },
            ..app
        }
    }
}

/// Selects the next global match, wrapping to the first.
pub fn next_global_result(app: &mut App)
    requires
        old(app).wf(),
    ensures
        final(app).wf(),
        *final(app) == next_global(*old(app)),
{
    if app.global_search_results.len() == 0 {
        return;
    }
    app.global_search_selected = (app.global_search_selected + 1) % app.global_search_results.len();
}

/// Selects the previous global match, wrapping to the last.
pub fn prev_global_result(app: &mut App)
    requires
        old(app).wf(),
    ensures
        final(app).wf(),
        *final(app) == prev_global(*old(app)),
{
    if app.global_search_results.len() == 0 {
        return;
    }
    if app.global_search_selected == 0 {
        app.global_search_selected = app.global_search_results.len() - 1;
    } else {
        app.global_search_selected = app.global_search_selected - 1;
    }
}

/// The file of the selected global match: its path, and its position in
/// the file list if it is there.
pub fn global_jump_target(app: &App) -> (r: Option<(String, Option<usize>)>)
    ensures
        (app.global_search_selected as int) < app.global_search_results.len() ==> (r matches Some(t) && ({
            let p = app.global_search_results@[app.global_search_selected as int].file_path@;
            &&& t.0@ == p
            &&& match t.1 {
                Some(i) => file_with_path(app.files@, p) == Some(i as int),
                None => file_with_path(app.files@, p) is None,
            }
        })),
        (app.global_search_selected as int) >= app.global_search_results.len() ==> r is None,
{
    if app.global_search_selected >= app.global_search_results.len() {
        return None;
    }
    let path = app.global_search_results[app.global_search_selected].file_path.clone();
    let idx = find_file_with_path(&app.files, path.as_str());
    Some((path, idx))
}

/// `app` after opening file `i` from a global match: the file and its row
/// selected, the diff at its top, the focus on the diff.
pub open spec fn opened(app: App, i: usize) -> App {
    App {
        selected_file: i,
        selected_tree_item: match row_of_file(app.tree_entries@, i) {
            Some(j) => j as usize,
            None => app.selected_tree_item,
        },
        diff_cursor: 0,
        diff_scroll: 0,
        focus: Focus::Diff,
        ..app
    }
}

/// Opens file `i` for a global match.
pub fn jump_to_file(app: &mut App, i: usize)
    requires
        old(app).sizes_ok(),
        old(app).tree_ok(),
        i < old(app).files.len(),
    ensures
        final(app).wf(),
        *final(app) == opened(*old(app), i),
{
    app.selected_file = i;
    match find_row_of_file(&app.tree_entries, i) {
        Some(j) => {
            app.selected_tree_item = j;
        },
        None => {},
    }
    app.diff_cursor = 0;
    app.diff_scroll = 0;
    app.focus = Focus::Diff;
}

/// The file a global match adds when it is not in the list: no staged or
/// unstaged code.
pub open spec fn added_file(path: String, status: char, hunks: Vec<Hunk>, is_binary: bool) -> FileChange {
    FileChange {
        path,
        status,
        staged_status: None,
        unstaged_status: None,
        hunks,
        is_binary,
    }
}

/// `b` is `a` with the file `nf` added to the list, the list sorted by
/// path, the tree rebuilt, and the new file opened.
pub open spec fn added_and_opened(a: App, nf: FileChange, b: App) -> bool {
    &&& b.files@ == sorted_by_key(a.files@.push(nf))
    &&& exists|mid: App|
        mid.files == b.files && crate::app::tree::is_tree_of(mid.tree_entries@, mid.files@, a.expanded_dirs@, a.filter)
            && mid == (App {
            files: mid.files,
            tree_entries: mid.tree_entries,
            selected_file: mid.selected_file,
            selected_tree_item: mid.selected_tree_item,
            ..a
        }) && b == opened(
            mid,
            match file_with_path(mid.files@, nf.path@) {
                Some(i) => i as usize,
                None => 0,
            },
        )
}

/// Adds the file of a global match to the list (kept sorted by path),
/// rebuilds the tree and opens the file. When the list with the new file
/// would pass the machine's bounds (`files_fit`), nothing changes and the
/// result is `false`.
pub fn add_file_and_jump(app: &mut App, path: String, status: char, hunks: Vec<Hunk>, is_binary: bool) -> (added: bool)
    requires
        old(app).wf(),
    ensures
        final(app).wf(),
        added == files_fit(old(app).files@.push(added_file(path, status, hunks, is_binary))),
        !added ==> final(app).files@ == old(app).files@ && *final(app) == (App { files: final(app).files, ..*old(app) }),
        added ==> added_and_opened(*old(app), added_file(path, status, hunks, is_binary), *final(app)),
{
    let ghost p = path@;
    let ghost nf = added_file(path, status, hunks, is_binary);
    let key = path.clone();
    let mut files: Vec<FileChange> = Vec::new();
    std::mem::swap(&mut files, &mut app.files);
    files.push(FileChange {
        path,
        status,
        staged_status: None,
        unstaged_status: None,
        hunks,
        is_binary,
    });
    if !super::fits::files_fit_check(&files) {
        let _ = files.pop();
        assert(files@ =~= old(app).files@);
        std::mem::swap(&mut files, &mut app.files);
        return false;
    }
    proof {
        super::fits::lemma_sorted_fits(files@);
    }
    let sorted = crate::order::stable_sort(files);
    proof {
        crate::order::lemma_sorted_by_key(old(app).files@.push(nf));
        assert(old(app).files@.push(nf).contains(nf));
        old(app).files@.push(nf).to_multiset_ensures();
        sorted@.to_multiset_ensures();
        assert(sorted@.to_multiset().count(nf) > 0);
        assert(sorted@.contains(nf));
    }
    app.files = sorted;
    proof {
        assert(app.files.len() == old(app).files.len() + 1);
    }
    app.rebuild_tree();
    let ghost mid = *app;
    let idx = match find_file_with_path(&app.files, key.as_str()) {
        Some(i) => i,
        None => 0,
    };
    proof {
        let j = choose|j: int| 0 <= j < sorted@.len() && sorted@[j] == nf;
        assert(app.files@[j].path@ == p);
        assert(file_with_path(app.files@, p) is Some) by {
            lemma_file_with_path_found(app.files@, p, 0, j);
        }
    }
    jump_to_file(app, idx);
    true
}

proof fn lemma_file_with_path_found(files: Seq<FileChange>, p: Seq<char>, k: int, j: int)
    requires
        0 <= k <= j < files.len(),
        files[j].path@ == p,
    ensures
        file_with_path_from_is_some(files, p, k),
    decreases j - k,
{
    if files[k].path@ != p {
        lemma_file_with_path_found(files, p, k + 1, j);
    }
}

spec fn file_with_path_from_is_some(files: Seq<FileChange>, p: Seq<char>, k: int) -> bool {
    super::file_with_path_from(files, p, k) is Some
}

/// Opens the selected global match when the list holds its file; gives the
/// path to read when it does not; does nothing when no match is selected.
pub fn jump_to_global_result(app: &mut App) -> (to_read: Option<String>)
    requires
        old(app).wf(),
    ensures
        final(app).wf(),
        ({
            let a = *old(app);
            let k = a.global_search_selected as int;
            if k >= a.global_search_results.len() {
                to_read is None && *final(app) == a
            } else {
                let p = a.global_search_results@[k].file_path@;
                match file_with_path(a.files@, p) {
                    Some(i) => to_read is None && *final(app) == opened(a, i as usize),
                    None => to_read matches Some(q) && q@ == p && *final(app) == a,
                }
            }
        }),
{
    match global_jump_target(app) {
        None => None,
        Some((path, Some(i))) => {
            proof {
                super::lemma_file_with_path_from(app.files@, path@, 0);
            }
            jump_to_file(app, i);
            None
        },
        Some((path, None)) => Some(path),
    }
}

/// The status of a file that a global match opens from disk: unchanged
/// when it exists, deleted when it does not.
pub open spec fn disk_status(exists: bool) -> char {
    if exists {
        ' '
    } else {
        'D'
    }
}

/// `b` is `a` after the file at `path` of a global match was read (see
/// `open_read_file`).
pub open spec fn file_read(a: App, path: String, read: Option<(Vec<Hunk>, bool, bool)>, b: App) -> bool {
    match read {
        None => b.message matches Some(m) && m@ == "Cannot read "@ + path@ && b == (App { message: b.message, ..a }),
        Some((hunks, is_binary, exists)) => {
            let nf = added_file(path, disk_status(exists), hunks, is_binary);
            if files_fit(a.files@.push(nf)) {
                added_and_opened(a, nf, b)
            } else {
                b.files@ == a.files@ && b == (App { files: b.files, ..a })
            }
        },
    }
}

/// `b` is `a` with the global search left: back to normal mode, matches
/// cleared.
pub open spec fn global_closed(a: App, b: App) -> bool {
    b.global_search_results@.len() == 0 && b == (App {
        mode: Mode::Normal,
        global_search_results: b.global_search_results,
        ..a
    })
}

/// Opens the file of a global match that the list did not hold, once read:
/// `read` holds its hunks, whether it is binary and whether it exists on
/// disk, or is `None` when it could not be read, which the status bar
/// reports. A file that would take the list past the machine's bounds is
/// not added.
pub fn open_read_file(app: &mut App, path: String, read: Option<(Vec<Hunk>, bool, bool)>)
    requires
        old(app).wf(),
    ensures
        final(app).wf(),
        file_read(*old(app), path, read, *final(app)),
{
    match read {
        None => {
            cannot_read(app, path.as_str());
        },
        Some((hunks, is_binary, exists)) => {
            let status = if exists {
                ' '
            } else {
                'D'
            };
            let _ = add_file_and_jump(app, path, status, hunks, is_binary);
        },
    }
}

/// Reports that the file of a global match cannot be read.
pub fn cannot_read(app: &mut App, path: &str)
    ensures
        final(app).message matches Some(m) && m@ == "Cannot read "@ + path@,
        *final(app) == (App { message: final(app).message, ..*old(app) }),
{
    let m = crate::text::concat("Cannot read ", path);
    app.show_message(m);
}

/// Leaves the global search after a jump: back to normal mode, matches
/// cleared.
pub fn close_global_search(app: &mut App)
    requires
        old(app).wf(),
    ensures
        final(app).wf(),
        global_closed(*old(app), *final(app)),
{
    app.mode = Mode::Normal;
    app.global_search_results.clear();
}

} // verus!
