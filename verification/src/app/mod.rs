//! The viewer state and the operations on it. The operations that need
//! git or the terminal are split: the state here says what to fetch, and
//! takes what was fetched.

use vstd::prelude::*;
use crate::git::{FileChange, Hunk, HunkLine, LineType};
use crate::search::{GlobalMatch, SearchResult, diffs_fit, hunk_texts};
use mode::{DiffLine, Filter, Focus, Mode, ScrollStep, TreeEntry};
use tree::{DirSet, build_tree_entries, counts_fit, is_tree_of, shown};

pub mod clipboard;
pub mod compare;
pub mod fits;
pub mod key_handlers;
pub mod mode;
pub mod navigation;
pub mod search;
pub mod status_text;
pub mod tree;

verus! {

/// The state of a diff viewing session.
pub struct App {
    pub files: Vec<FileChange>,
    pub selected_file: usize,
    pub tree_entries: Vec<TreeEntry>,
    pub selected_tree_item: usize,
    pub expanded_dirs: DirSet,
    pub mode: Mode,
    pub focus: Focus,
    pub search_query: String,
    pub last_search_query: String,
    pub search_results: Vec<SearchResult>,
    pub selected_search_result: usize,
    pub global_search_query: String,
    pub global_search_results: Vec<GlobalMatch>,
    pub global_search_selected: usize,
    pub message: Option<String>,
    pub diff_cursor: usize,
    pub diff_scroll: usize,
    pub diff_visible_height: usize,
    pub tree_visible_height: usize,
    pub filter: Filter,
    pub branches: Vec<String>,
    pub selected_branch: usize,
    pub compare_branch: Option<String>,
    pub compare_range: Option<(String, String)>,
    pub commits: Vec<(String, String)>,
    pub selected_commit: usize,
    pub compare_commit: Option<String>,
    pub side_by_side: bool,
    pub show_untracked: bool,
    pub scroll_step: ScrollStep,
}

// ---------------------------------------------------------------------------
// The diff view of a file
// ---------------------------------------------------------------------------

/// The rows of the diff view for the hunks `hs`: each header, then its
/// lines, each row with the index of its hunk.
pub open spec fn diff_rows(hs: Seq<Hunk>) -> Seq<(Seq<char>, LineType, usize)>
    decreases hs.len(),
{
    if hs.len() == 0 {
        Seq::empty()
    } else {
        let h = hs.last();
        let n = (hs.len() - 1) as usize;
        diff_rows(hs.drop_last()) + seq![(h.header@, LineType::Header, n)] + h.lines@.map_values(
            |l: HunkLine| (l.content@, l.line_type, n),
        )
    }
}

/// The rows of the diff view for the file `f`: a notice for binary files and
/// for files without hunks.
pub open spec fn file_diff_rows(f: FileChange) -> Seq<(Seq<char>, LineType, usize)> {
    if f.is_binary {
        seq![("Binary file - diff not available"@, LineType::Context, 0usize)]
    } else if diff_rows(f.hunks@).len() == 0 {
        seq![("No diff available"@, LineType::Context, 0usize)]
    } else {
        diff_rows(f.hunks@)
    }
}

/// The view of a diff row.
pub open spec fn row_view(l: DiffLine) -> (Seq<char>, LineType, usize) {
    (l.content@, l.line_type, l.hunk_index)
}

/// The views of diff rows.
pub open spec fn rows_view(v: Seq<DiffLine>) -> Seq<(Seq<char>, LineType, usize)> {
    v.map_values(|l: DiffLine| row_view(l))
}

/// The diff rows and the searchable texts of a file line up: same number,
/// same text.
pub proof fn lemma_rows_texts(hs: Seq<Hunk>)
    ensures
        diff_rows(hs).len() == hunk_texts(hs).len(),
        forall|j: int| 0 <= j < diff_rows(hs).len() ==> #[trigger] diff_rows(hs)[j].0 == hunk_texts(hs)[j],
    decreases hs.len(),
{
    if hs.len() > 0 {
        lemma_rows_texts(hs.drop_last());
        let h = hs.last();
        let n = (hs.len() - 1) as usize;
        let a = diff_rows(hs.drop_last()) + seq![(h.header@, LineType::Header, n)];
        let b = h.lines@.map_values(|l: HunkLine| (l.content@, l.line_type, n));
        let c = hunk_texts(hs.drop_last()) + seq![h.header@];
        let d = h.lines@.map_values(|l: HunkLine| l.content@);
        assert forall|j: int| 0 <= j < diff_rows(hs).len() implies #[trigger] diff_rows(hs)[j].0 == hunk_texts(hs)[j] by {
            if j < a.len() {
                if j < diff_rows(hs.drop_last()).len() {
                    assert(a[j] == diff_rows(hs.drop_last())[j]);
                    assert(c[j] == hunk_texts(hs.drop_last())[j]);
                }
                assert((a + b)[j] == a[j]);
                assert((c + d)[j] == c[j]);
            } else {
                assert((a + b)[j] == b[j - a.len()]);
                assert((c + d)[j] == d[j - c.len()]);
            }
        }
    }
}

/// Each diff row names a hunk of the file, and every hunk has a row.
pub proof fn lemma_diff_rows_hunks(hs: Seq<Hunk>)
    ensures
        hs.len() <= diff_rows(hs).len(),
        forall|j: int| 0 <= j < diff_rows(hs).len() ==> (#[trigger] diff_rows(hs)[j]).2 < hs.len(),
    decreases hs.len(),
{
    if hs.len() > 0 {
        lemma_diff_rows_hunks(hs.drop_last());
        let h = hs.last();
        let n = (hs.len() - 1) as usize;
        let a = diff_rows(hs.drop_last()) + seq![(h.header@, LineType::Header, n)];
        let b = h.lines@.map_values(|l: HunkLine| (l.content@, l.line_type, n));
        assert forall|j: int| 0 <= j < diff_rows(hs).len() implies (#[trigger] diff_rows(hs)[j]).2 < hs.len() by {
            if j < a.len() {
                if j < diff_rows(hs.drop_last()).len() {
                    assert(a[j] == diff_rows(hs.drop_last())[j]);
                }
                assert((a + b)[j] == a[j]);
            } else {
                assert((a + b)[j] == b[j - a.len()]);
            }
        }
    }
}

/// Each row of the diff view names a hunk index below the number of rows.
pub proof fn lemma_view_hunk_index(app: App)
    requires
        app.selection_ok(),
    ensures
        forall|j: int| 0 <= j < app.diff_view().len() ==> (#[trigger] app.diff_view()[j]).2 < app.diff_view().len(),
{
    if app.files.len() > 0 {
        lemma_diff_rows_hunks(app.files@[app.selected_file as int].hunks@);
    }
}

// ---------------------------------------------------------------------------
// Well-formed states
// ---------------------------------------------------------------------------

impl App {
    /// The diff rows of the selected file (none without files).
    pub open spec fn diff_view(&self) -> Seq<(Seq<char>, LineType, usize)> {
        if self.files.len() == 0 {
            Seq::empty()
        } else {
            file_diff_rows(self.files@[self.selected_file as int])
        }
    }

    /// Sizes stay within the machine's bounds: line counts fit, and positions
    /// and page heights stay within the bounds that their arithmetic needs.
    pub open spec fn sizes_ok(&self) -> bool {
        &&& counts_fit(self.files@)
        &&& diffs_fit(self.files@)
        &&& self.files.len() <= isize::MAX
        &&& tree::comps_total(self.files@, self.files.len() as int) <= isize::MAX
        &&& self.tree_entries.len() <= isize::MAX
        &&& self.selected_tree_item <= isize::MAX
        &&& self.diff_cursor <= isize::MAX
        &&& self.diff_scroll <= isize::MAX
        &&& self.diff_visible_height <= i32::MAX
        &&& self.tree_visible_height <= isize::MAX
        &&& (self.search_results.len() == 0 || self.selected_search_result < self.search_results.len())
        &&& (self.global_search_results.len() == 0 || self.global_search_selected
            < self.global_search_results.len())
        &&& (self.branches.len() == 0 || self.selected_branch < self.branches.len())
        &&& (self.commits.len() == 0 || self.selected_commit < self.commits.len())
        &&& forall|k: int|
            0 <= k < self.search_results.len() ==> ((#[trigger] self.search_results@[k]).line_number matches Some(j)
                ==> j <= isize::MAX)
    }

    /// The selected file exists whenever there are files.
    pub open spec fn selection_ok(&self) -> bool {
        self.files.len() > 0 ==> self.selected_file < self.files.len()
    }

    /// The tree shows the files as the filter and the expanded directories
    /// say.
    pub open spec fn tree_ok(&self) -> bool {
        is_tree_of(self.tree_entries@, self.files@, self.expanded_dirs@, self.filter)
    }

    /// A state that every operation accepts.
    pub open spec fn wf(&self) -> bool {
        &&& self.sizes_ok()
        &&& self.selection_ok()
        &&& self.tree_ok()
    }
}

// ---------------------------------------------------------------------------
// Finding rows and files
// ---------------------------------------------------------------------------

/// Row `k` lists file `i`.
pub open spec fn row_has_file(rows: Seq<TreeEntry>, k: int, i: usize) -> bool {
    0 <= k < rows.len() && rows[k].file_index == Some(i)
}

/// The first row that lists a file.
pub open spec fn first_file_row(rows: Seq<TreeEntry>) -> Option<int> {
    first_row_from(rows, 0)
}

/// The first row at or after `k` that lists a file.
pub open spec fn first_row_from(rows: Seq<TreeEntry>, k: int) -> Option<int>
    decreases rows.len() - k,
{
    if k < 0 || k >= rows.len() {
        None
    } else if rows[k].file_index is Some {
        Some(k)
    } else {
        first_row_from(rows, k + 1)
    }
}

/// The first row that lists file `i`.
pub open spec fn row_of_file(rows: Seq<TreeEntry>, i: usize) -> Option<int> {
    row_of_file_from(rows, i, 0)
}

/// The first row at or after `k` that lists file `i`.
pub open spec fn row_of_file_from(rows: Seq<TreeEntry>, i: usize, k: int) -> Option<int>
    decreases rows.len() - k,
{
    if k < 0 || k >= rows.len() {
        None
    } else if rows[k].file_index == Some(i) {
        Some(k)
    } else {
        row_of_file_from(rows, i, k + 1)
    }
}

/// The first file with path `p`.
pub open spec fn file_with_path(files: Seq<FileChange>, p: Seq<char>) -> Option<int> {
    file_with_path_from(files, p, 0)
}

/// The first file at or after `k` with path `p`.
pub open spec fn file_with_path_from(files: Seq<FileChange>, p: Seq<char>, k: int) -> Option<int>
    decreases files.len() - k,
{
    if k < 0 || k >= files.len() {
        None
    } else if files[k].path@ == p {
        Some(k)
    } else {
        file_with_path_from(files, p, k + 1)
    }
}

proof fn lemma_first_row_from(rows: Seq<TreeEntry>, k: int)
    requires
        0 <= k,
    ensures
        first_row_from(rows, k) matches Some(j) ==> k <= j < rows.len() && rows[j].file_index is Some,
    decreases rows.len() - k,
{
    if k < rows.len() && rows[k].file_index is None {
        lemma_first_row_from(rows, k + 1);
    }
}

proof fn lemma_row_of_file_from(rows: Seq<TreeEntry>, i: usize, k: int)
    requires
        0 <= k,
    ensures
        row_of_file_from(rows, i, k) matches Some(j) ==> k <= j < rows.len() && rows[j].file_index == Some(i),
        row_of_file_from(rows, i, k) is None ==> forall|j: int| k <= j < rows.len() ==> rows[j].file_index != Some(i),
    decreases rows.len() - k,
{
    if k < rows.len() && rows[k].file_index != Some(i) {
        lemma_row_of_file_from(rows, i, k + 1);
    }
}

pub(crate) proof fn lemma_file_with_path_from(files: Seq<FileChange>, p: Seq<char>, k: int)
    requires
        0 <= k,
    ensures
        file_with_path_from(files, p, k) matches Some(j) ==> k <= j < files.len() && files[j].path@ == p,
    decreases files.len() - k,
{
    if k < files.len() && files[k].path@ != p {
        lemma_file_with_path_from(files, p, k + 1);
    }
}

/// The first row that lists a file (exec form of `first_file_row`).
pub fn find_first_file_row(rows: &Vec<TreeEntry>) -> (r: Option<usize>)
    ensures
        match r {
            Some(k) => first_file_row(rows@) == Some(k as int),
            None => first_file_row(rows@) is None,
        },
        r matches Some(k) ==> k < rows.len() && rows@[k as int].file_index is Some,
{
    let mut k: usize = 0;
    while k < rows.len()
        invariant
            k <= rows.len(),
            first_file_row(rows@) == first_row_from(rows@, k as int),
        decreases rows.len() - k,
    {
        if rows[k].file_index.is_some() {
            return Some(k);
        }
        k = k + 1;
    }
    None
}

/// The first row that lists file `i` (exec form of `row_of_file`).
pub fn find_row_of_file(rows: &Vec<TreeEntry>, i: usize) -> (r: Option<usize>)
    ensures
        match r {
            Some(k) => row_of_file(rows@, i) == Some(k as int),
            None => row_of_file(rows@, i) is None,
        },
        r matches Some(k) ==> k < rows.len() && rows@[k as int].file_index == Some(i),
        r is None ==> forall|j: int| 0 <= j < rows.len() ==> rows@[j].file_index != Some(i),
{
    let mut k: usize = 0;
    while k < rows.len()
        invariant
            k <= rows.len(),
            row_of_file(rows@, i) == row_of_file_from(rows@, i, k as int),
            forall|j: int| 0 <= j < k ==> rows@[j].file_index != Some(i),
        decreases rows.len() - k,
    {
        if rows[k].file_index == Some(i) {
            return Some(k);
        }
        k = k + 1;
    }
    None
}

/// The first file with path `p` (exec form of `file_with_path`).
pub fn find_file_with_path(files: &Vec<FileChange>, p: &str) -> (r: Option<usize>)
    ensures
        match r {
            Some(k) => file_with_path(files@, p@) == Some(k as int),
            None => file_with_path(files@, p@) is None,
        },
        r matches Some(k) ==> k < files.len(),
{
    let mut k: usize = 0;
    while k < files.len()
        invariant
            k <= files.len(),
            file_with_path(files@, p@) == file_with_path_from(files@, p@, k as int),
        decreases files.len() - k,
    {
        if tree::str_eq(files[k].path.as_str(), p) {
            return Some(k);
        }
        k = k + 1;
    }
    None
}

// ---------------------------------------------------------------------------
// Core operations
// ---------------------------------------------------------------------------

/// The filter after `f` in the cycle all, staged, unstaged.
pub open spec fn next_filter(f: Filter) -> Filter {
    match f {
        Filter::All => Filter::Staged,
        Filter::Staged => Filter::Unstaged,
        Filter::Unstaged => Filter::All,
    }
}

/// Cycling the filter three times comes back to where it started, and no
/// fewer steps do.
pub proof fn law_filter_cycle(f: Filter)
    ensures
        next_filter(next_filter(next_filter(f))) == f,
        next_filter(f) != f,
        next_filter(next_filter(f)) != f,
{
}

/// The pane that gets the focus from the other.
pub open spec fn other_focus(f: Focus) -> Focus {
    match f {
        Focus::Files => Focus::Diff,
        Focus::Diff => Focus::Files,
    }
}

/// Moving the focus twice gives it back to the pane that had it.
pub proof fn law_focus_toggle_twice(f: Focus)
    ensures
        other_focus(other_focus(f)) == f,
        other_focus(f) != f,
{
}

/// The label of a filter.
pub open spec fn filter_label(f: Filter) -> Seq<char> {
    match f {
        Filter::All => "all"@,
        Filter::Staged => "staged"@,
        Filter::Unstaged => "unstaged"@,
    }
}

pub(crate) fn filter_label_exec(f: Filter) -> (r: &'static str)
    ensures
        r@ == filter_label(f),
{
    match f {
        Filter::All => "all",
        Filter::Staged => "staged",
        Filter::Unstaged => "unstaged",
    }
}

/// The selection that a rebuilt tree keeps: the selected file when the tree
/// lists it, else the first file row, else the old selection.
pub open spec fn reselect(rows: Seq<TreeEntry>, sel_file: usize, sel_item: usize) -> (usize, usize) {
    if exists|k: int| row_has_file(rows, k, sel_file) {
        (sel_file, sel_item)
    } else {
        match first_file_row(rows) {
            Some(k) => (rows[k].file_index->0, k as usize),
            None => (sel_file, sel_item),
        }
    }
}

/// Lines of kind `t` in the first `n` files that the filter shows.
pub open spec fn shown_count(files: Seq<FileChange>, filter: Filter, t: LineType, n: int) -> nat
    decreases n,
{
    if n <= 0 {
        0
    } else {
        shown_count(files, filter, t, n - 1) + if shown(files[n - 1], filter) {
            tree::count_type(files[n - 1].hunks@, t)
        } else {
            0
        }
    }
}

proof fn lemma_shown_le_total(files: Seq<FileChange>, filter: Filter, t: LineType, n: int)
    ensures
        shown_count(files, filter, t, n) <= tree::total_count(files, t, n),
    decreases n,
{
    if n > 0 {
        lemma_shown_le_total(files, filter, t, n - 1);
    }
}

impl App {
    /// A state for the files `files`, viewed as a fresh session shows them:
    /// all directories expanded and the first file selected.
    pub fn test_new(files: Vec<FileChange>) -> (app: App)
        requires
            files_fit(files@),
        ensures
            app.wf(),
            app.files@ == files@,
            exists|rows: Seq<TreeEntry>|
                is_tree_of(rows, files@, Set::empty(), Filter::All) && app.expanded_dirs@ == dir_paths(rows),
            is_tree_of(app.tree_entries@, files@, app.expanded_dirs@, Filter::All),
            (app.selected_file, app.selected_tree_item) == top_selection(app.tree_entries@),
            app.mode == Mode::Normal,
            app.focus == Focus::Files,
            app.filter == Filter::All,
            app.message is None,
            app.diff_cursor == 0,
            app.diff_scroll == 0,
            app.diff_visible_height == 0,
            app.tree_visible_height == 0,
            app.search_query@.len() == 0,
            app.last_search_query@.len() == 0,
            app.search_results@.len() == 0,
            app.selected_search_result == 0,
            app.global_search_query@.len() == 0,
            app.global_search_results@.len() == 0,
            app.global_search_selected == 0,
            app.branches@.len() == 0,
            app.selected_branch == 0,
            app.commits@.len() == 0,
            app.selected_commit == 0,
            app.compare_branch is None,
            app.compare_commit is None,
            app.compare_range is None,
            !app.side_by_side,
            !app.show_untracked,
            app.scroll_step == ScrollStep::Hunk,
    {
        let mut app = App {
            files,
            selected_file: 0,
            tree_entries: Vec::new(),
            selected_tree_item: 0,
            expanded_dirs: DirSet::new(),
            mode: Mode::Normal,
            focus: Focus::Files,
            search_query: String::new(),
            last_search_query: String::new(),
            search_results: Vec::new(),
            selected_search_result: 0,
            global_search_query: String::new(),
            global_search_results: Vec::new(),
            global_search_selected: 0,
            message: None,
            diff_cursor: 0,
            diff_scroll: 0,
            diff_visible_height: 0,
            tree_visible_height: 0,
            filter: Filter::All,
            branches: Vec::new(),
            selected_branch: 0,
            compare_branch: None,
            compare_range: None,
            commits: Vec::new(),
            selected_commit: 0,
            compare_commit: None,
            side_by_side: false,
            show_untracked: false,
            scroll_step: ScrollStep::Hunk,
        };
        app.reset_view_to_files();
        app
    }

    /// The rows of the diff view for the selected file.
    pub fn diff_lines(&self) -> (r: Vec<DiffLine>)
        requires
            self.selection_ok(),
        ensures
            rows_view(r@) == self.diff_view(),
    {
        if self.files.len() == 0 {
            let r: Vec<DiffLine> = Vec::new();
            assert(rows_view(r@) =~= Seq::empty());
            return r;
        }
        let file = &self.files[self.selected_file];
        if file.is_binary {
            let mut r: Vec<DiffLine> = Vec::new();
            r.push(DiffLine {
                content: "Binary file - diff not available".to_owned(),
                line_type: LineType::Context,
                hunk_index: 0,
            });
            assert(rows_view(r@) =~= self.diff_view());
            return r;
        }
        let mut lines: Vec<DiffLine> = Vec::new();
        let hs = &file.hunks;
        let mut h: usize = 0;
        assert(hs@.take(0) =~= Seq::<Hunk>::empty());
        assert(rows_view(lines@) =~= Seq::empty());
        while h < hs.len()
            invariant
                h <= hs.len(),
                rows_view(lines@) == diff_rows(hs@.take(h as int)),
            decreases hs.len() - h,
        {
            let hunk = &hs[h];
            assert(hs@.take(h + 1).drop_last() =~= hs@.take(h as int));
            assert(hs@.take(h + 1).last() == hunk);
            let ghost base = rows_view(lines@);
            lines.push(DiffLine { content: hunk.header.clone(), line_type: LineType::Header, hunk_index: h });
            let ghost with_header = base + seq![(hunk.header@, LineType::Header, h)];
            assert(rows_view(lines@) =~= with_header);
            let ghost f = |l: HunkLine| (l.content@, l.line_type, h);
            let mut k: usize = 0;
            assert(with_header + hunk.lines@.take(0).map_values(f) =~= with_header);
            while k < hunk.lines.len()
                invariant
                    k <= hunk.lines.len(),
                    f == |l: HunkLine| (l.content@, l.line_type, h),
                    rows_view(lines@) == with_header + hunk.lines@.take(k as int).map_values(f),
                decreases hunk.lines.len() - k,
            {
                let line = &hunk.lines[k];
                let ghost before = rows_view(lines@);
                lines.push(DiffLine { content: line.content.clone(), line_type: line.line_type, hunk_index: h });
                assert(rows_view(lines@) =~= before.push(f(hunk.lines@[k as int])));
                assert(hunk.lines@.take(k + 1).map_values(f) =~= hunk.lines@.take(k as int).map_values(f).push(
                    f(hunk.lines@[k as int]),
                ));
                k = k + 1;
            }
            assert(hunk.lines@.take(hunk.lines.len() as int) =~= hunk.lines@);
            h = h + 1;
        }
        assert(hs@.take(hs.len() as int) =~= hs@);
        if lines.len() == 0 {
            lines.push(DiffLine {
                content: "No diff available".to_owned(),
                line_type: LineType::Context,
                hunk_index: 0,
            });
            assert(rows_view(lines@) =~= self.diff_view());
        }
        lines
    }

    /// Rebuilds the tree rows from the files, the filter and the expanded
    /// directories, keeping the selected file when it is still listed.
    pub fn rebuild_tree(&mut self)
        requires
            old(self).sizes_ok(),
        ensures
            final(self).sizes_ok(),
            final(self).tree_ok(),
            old(self).selection_ok() ==> final(self).selection_ok(),
            is_tree_of(final(self).tree_entries@, old(self).files@, old(self).expanded_dirs@, old(self).filter),
            (final(self).selected_file, final(self).selected_tree_item) == reselect(
                final(self).tree_entries@,
                old(self).selected_file,
                old(self).selected_tree_item,
            ),
            *final(self) == (App {
                tree_entries: final(self).tree_entries,
                selected_file: final(self).selected_file,
                selected_tree_item: final(self).selected_tree_item,
                ..*old(self)
            }),
    {
        let rows = build_tree_entries(self.files.as_slice(), &self.expanded_dirs, self.filter);
        assert(rows.len() <= isize::MAX);
        proof {
            tree::lemma_tree_rows_index(rows@, self.files@, self.expanded_dirs@, self.filter);
        }
        let ghost rows_v = rows@;
        match find_row_of_file(&rows, self.selected_file) {
            Some(k) => {
                assert(row_has_file(rows_v, k as int, self.selected_file));
            },
            None => {
                assert(!exists|k: int| row_has_file(rows_v, k, self.selected_file));
                match find_first_file_row(&rows) {
                    Some(k) => {
                        self.selected_tree_item = k;
                        match rows[k].file_index {
                            Some(i) => {
                                self.selected_file = i;
                            },
                            None => {},
                        }
                    },
                    None => {},
                }
            },
        }
        self.tree_entries = rows;
    }
}

/// The full paths of the directory rows among the first `n` of `rows`.
pub open spec fn dirs_upto(rows: Seq<TreeEntry>, n: int) -> Set<Seq<char>> {
    Set::new(|x: Seq<char>| exists|k: int| 0 <= k < n && k < rows.len() && rows[k].is_dir && #[trigger] rows[k].full_path@ == x)
}

/// The full paths of the directory rows of `rows`.
pub open spec fn dir_paths(rows: Seq<TreeEntry>) -> Set<Seq<char>> {
    dirs_upto(rows, rows.len() as int)
}

proof fn lemma_dirs_upto_step(rows: Seq<TreeEntry>, n: int)
    requires
        0 <= n < rows.len(),
    ensures
        dirs_upto(rows, n + 1) == if rows[n].is_dir {
            dirs_upto(rows, n).insert(rows[n].full_path@)
        } else {
            dirs_upto(rows, n)
        },
{
    let a = dirs_upto(rows, n + 1);
    let b = if rows[n].is_dir {
        dirs_upto(rows, n).insert(rows[n].full_path@)
    } else {
        dirs_upto(rows, n)
    };
    assert forall|x: Seq<char>| a.contains(x) <==> b.contains(x) by {
        if a.contains(x) {
            let k = choose|k: int| 0 <= k < n + 1 && k < rows.len() && rows[k].is_dir && #[trigger] rows[k].full_path@ == x;
            if k < n {
                assert(dirs_upto(rows, n).contains(x));
            }
        }
        if dirs_upto(rows, n).contains(x) {
            let k = choose|k: int| 0 <= k < n && k < rows.len() && rows[k].is_dir && #[trigger] rows[k].full_path@ == x;
            assert(a.contains(x));
        }
        if rows[n].is_dir && x == rows[n].full_path@ {
            assert(a.contains(x));
        }
    }
    assert(a =~= b);
}

/// The selection at the first file row, or at the top when there is none.
pub open spec fn top_selection(rows: Seq<TreeEntry>) -> (usize, usize) {
    match first_file_row(rows) {
        Some(k) => (rows[k].file_index->0, k as usize),
        None => (0, 0),
    }
}

/// `b` is `a` with its view reset: no search results, the filter back to
/// all, every directory of the tree expanded, the first file selected and
/// the diff at its top.
pub open spec fn view_reset(a: App, b: App) -> bool {
    &&& exists|rows: Seq<TreeEntry>|
        is_tree_of(rows, a.files@, a.expanded_dirs@, Filter::All) && b.expanded_dirs@
            == a.expanded_dirs@.union(dir_paths(rows))
    &&& is_tree_of(b.tree_entries@, a.files@, b.expanded_dirs@, Filter::All)
    &&& (b.selected_file, b.selected_tree_item) == top_selection(b.tree_entries@)
    &&& b.search_results@.len() == 0
    &&& b == (App {
        tree_entries: b.tree_entries,
        selected_file: b.selected_file,
        selected_tree_item: b.selected_tree_item,
        expanded_dirs: b.expanded_dirs,
        search_results: b.search_results,
        filter: Filter::All,
        diff_cursor: 0,
        diff_scroll: 0,
        ..a
    })
}

/// The files fit the machine's bounds: line counts, diff rows, the number
/// of files and of path components.
pub open spec fn files_fit(fs: Seq<FileChange>) -> bool {
    &&& counts_fit(fs)
    &&& diffs_fit(fs)
    &&& fs.len() <= isize::MAX
    &&& tree::comps_total(fs, fs.len() as int) <= isize::MAX
}

impl App {
    /// Shows every file: the filter back to all, every directory expanded,
    /// the first file selected, the diff at its top, and no search results.
    pub fn reset_view_to_files(&mut self)
        requires
            old(self).sizes_ok(),
            old(self).selection_ok(),
        ensures
            final(self).wf(),
            view_reset(*old(self), *final(self)),
    {
        self.search_results.clear();
        self.filter = Filter::All;
        self.rebuild_tree();
        let ghost rows1 = self.tree_entries@;
        let ghost ex0 = self.expanded_dirs@;
        let ghost pre = *self;
        let mut k: usize = 0;
        assert(ex0.union(dirs_upto(rows1, 0)) =~= ex0);
        while k < self.tree_entries.len()
            invariant
                k <= self.tree_entries.len(),
                self.tree_entries@ == rows1,
                *self == (App { expanded_dirs: self.expanded_dirs, ..pre }),
                self.expanded_dirs@ == ex0.union(dirs_upto(rows1, k as int)),
            decreases self.tree_entries.len() - k,
        {
            let ghost before = self.expanded_dirs@;
            if self.tree_entries[k].is_dir {
                let d = self.tree_entries[k].full_path.clone();
                self.expanded_dirs.insert(d);
            }
            proof {
                lemma_dirs_upto_step(rows1, k as int);
                assert(self.expanded_dirs@ =~= ex0.union(dirs_upto(rows1, k + 1)));
            }
            k = k + 1;
        }
        assert(self.expanded_dirs@ =~= ex0.union(dir_paths(rows1)));
        self.rebuild_tree();
        self.selected_file = 0;
        self.selected_tree_item = 0;
        match find_first_file_row(&self.tree_entries) {
            Some(k) => {
                self.selected_tree_item = k;
                match self.tree_entries[k].file_index {
                    Some(i) => {
                        self.selected_file = i;
                    },
                    None => {},
                }
            },
            None => {},
        }
        proof {
            tree::lemma_tree_rows_index(self.tree_entries@, self.files@, self.expanded_dirs@, self.filter);
        }
        self.diff_cursor = 0;
        self.diff_scroll = 0;
    }
}

/// Where the files of a reload come from.
#[derive(Debug, Clone)]
pub enum FileSource {
    /// The diff between two refs.
    Range(String, String),
    /// One commit.
    Commit(String),
    /// `HEAD` against a branch.
    Branch(String),
    /// The working tree, with untracked files listed when the flag is set.
    WorkingTree(bool),
}

/// `src` is where the files of `a` come from: its range, else its commit,
/// else its branch, else the working tree.
pub open spec fn source_of(a: App, src: FileSource) -> bool {
    match a.compare_range {
        Some((l, r)) => src matches FileSource::Range(l2, r2) && l2@ == l@ && r2@ == r@,
        None => match a.compare_commit {
            Some(c) => src matches FileSource::Commit(c2) && c2@ == c@,
            None => match a.compare_branch {
                Some(b) => src matches FileSource::Branch(b2) && b2@ == b@,
                None => src == FileSource::WorkingTree(a.show_untracked),
            },
        },
    }
}

/// The selection after a reload: the old file, found again by its path,
/// with its row; else the first file row.
pub open spec fn reload_selection(rows: Seq<TreeEntry>, files: Seq<FileChange>, old_path: Option<Seq<char>>, sel: (usize, usize)) -> (usize, usize) {
    match old_path {
        None => sel,
        Some(p) => match file_with_path(files, p) {
            Some(idx) => match row_of_file(rows, idx as usize) {
                Some(k) => (idx as usize, k as usize),
                None => (idx as usize, sel.1),
            },
            None => if rows.len() == 0 {
                sel
            } else {
                match first_file_row(rows) {
                    Some(k) => (rows[k].file_index->0, k as usize),
                    None => sel,
                }
            },
        },
    }
}

/// `b` is `a` after `cycle_filter`: the next filter, the tree rebuilt for
/// it, the selection kept within the rows, the diff at its top, no search
/// results, and the new filter named in the status bar.
pub open spec fn filter_cycled(a: App, b: App) -> bool {
    let rows = b.tree_entries@;
    let sel = reselect(rows, a.selected_file, a.selected_tree_item);
    let item = if (sel.1 as int) < rows.len() as int - 1 || rows.len() == 0 {
        if rows.len() == 0 {
            0usize
        } else {
            sel.1
        }
    } else {
        (rows.len() - 1) as usize
    };
    &&& b.filter == next_filter(a.filter)
    &&& is_tree_of(b.tree_entries@, a.files@, a.expanded_dirs@, b.filter)
    &&& b.selected_tree_item == item
    &&& b.selected_file == if (item as int) < rows.len() && rows[item as int].file_index is Some {
        rows[item as int].file_index->0
    } else {
        sel.0
    }
    &&& b.message matches Some(m) && m@ == "Filter: "@ + filter_label(b.filter)
    &&& b.search_results@.len() == 0
    &&& b == (App {
        tree_entries: b.tree_entries,
        selected_file: b.selected_file,
        selected_tree_item: b.selected_tree_item,
        search_results: b.search_results,
        filter: b.filter,
        message: b.message,
        diff_cursor: 0,
        diff_scroll: 0,
        ..a
    })
}

/// `b` is `a` after a reload with `files`: the tree rebuilt for them, the
/// old file found again by its path (see `reload_selection`), the diff at
/// its top, and the reload reported in the status bar.
pub open spec fn reloaded(a: App, files: Seq<FileChange>, b: App) -> bool {
    let rows = b.tree_entries@;
    let old_path = if (a.selected_file as int) < a.files.len() {
        Some(a.files@[a.selected_file as int].path@)
    } else {
        None
    };
    &&& b.files@ == files
    &&& (b.selected_file, b.selected_tree_item) == reload_selection(
        rows,
        files,
        old_path,
        reselect(rows, a.selected_file, a.selected_tree_item),
    )
    &&& is_tree_of(b.tree_entries@, files, a.expanded_dirs@, a.filter)
    &&& b.message matches Some(m) && m@ == "Files reloaded"@
    &&& b == (App {
        files: b.files,
        tree_entries: b.tree_entries,
        selected_file: b.selected_file,
        selected_tree_item: b.selected_tree_item,
        message: b.message,
        diff_cursor: 0,
        diff_scroll: 0,
        ..a
    })
}

/// A reload keeps the selected file: when the reloaded files still hold a
/// file with the selected file's path, that file is selected.
pub proof fn law_reload_keeps_file(a: App, files: Seq<FileChange>, b: App)
    requires
        reloaded(a, files, b),
        (a.selected_file as int) < a.files.len(),
        file_with_path(files, a.files@[a.selected_file as int].path@) is Some,
    ensures
        (b.selected_file as int) < files.len(),
        files[b.selected_file as int].path@ == a.files@[a.selected_file as int].path@,
{
    let p = a.files@[a.selected_file as int].path@;
    lemma_file_with_path_from(files, p, 0);
    assert(b.files@.len() == b.files.len());
}

impl App {
    /// Puts `msg` in the status bar.
    pub fn show_message(&mut self, msg: String)
        ensures
            *final(self) == (App { message: Some(msg), ..*old(self) }),
    {
        self.message = Some(msg);
    }

    /// Takes the message out of the status bar once it has been shown for
    /// more than three seconds (`elapsed_nanos` since it was put there, if
    /// it was); answers whether it did.
    pub fn check_message_timeout(&mut self, elapsed_nanos: Option<u128>) -> (cleared: bool)
        ensures
            cleared == (elapsed_nanos matches Some(e) && e > 3_000_000_000),
            *final(self) == if cleared {
                App { message: None, ..*old(self) }
            } else {
                *old(self)
            },
    {
        match elapsed_nanos {
            Some(e) => {
                if e > 3_000_000_000 {
                    self.clear_message();
                    return true;
                }
                false
            },
            None => false,
        }
    }

    /// Takes the message out of the status bar.
    pub fn clear_message(&mut self)
        ensures
            *final(self) == (App { message: None, ..*old(self) }),
    {
        self.message = None;
    }

    /// Moves the focus to the other pane.
    pub fn toggle_focus(&mut self)
        ensures
            *final(self) == (App { focus: other_focus(old(self).focus), ..*old(self) }),
    {
        self.focus = match self.focus {
            Focus::Files => Focus::Diff,
            Focus::Diff => Focus::Files,
        };
    }

    /// The numbers of added and removed lines in the files the filter shows.
    pub fn total_stats(&self) -> (r: (usize, usize))
        requires
            self.sizes_ok(),
        ensures
            r.0 == shown_count(self.files@, self.filter, LineType::Added, self.files.len() as int),
            r.1 == shown_count(self.files@, self.filter, LineType::Removed, self.files.len() as int),
    {
        let mut added: usize = 0;
        let mut removed: usize = 0;
        let mut i: usize = 0;
        while i < self.files.len()
            invariant
                i <= self.files.len(),
                counts_fit(self.files@),
                added == shown_count(self.files@, self.filter, LineType::Added, i as int),
                removed == shown_count(self.files@, self.filter, LineType::Removed, i as int),
            decreases self.files.len() - i,
        {
            proof {
                lemma_shown_le_total(self.files@, self.filter, LineType::Added, i + 1);
                lemma_shown_le_total(self.files@, self.filter, LineType::Removed, i + 1);
                tree::lemma_total_count_grows(self.files@, LineType::Added, i + 1, self.files.len() as int);
                tree::lemma_total_count_grows(self.files@, LineType::Removed, i + 1, self.files.len() as int);
            }
            let f = &self.files[i];
            let visible = match self.filter {
                Filter::All => true,
                Filter::Staged => f.staged_status.is_some(),
                Filter::Unstaged => f.unstaged_status.is_some(),
            };
            if visible {
                let ghost a0 = added;
                let ghost r0 = removed;
                let mut h: usize = 0;
                assert(f.hunks@.take(0) =~= Seq::<Hunk>::empty());
                while h < f.hunks.len()
                    invariant
                        h <= f.hunks.len(),
                        f == self.files@[i as int],
                        shown(*f, self.filter),
                        i < self.files.len(),
                        counts_fit(self.files@),
                        added == a0 + tree::count_type(f.hunks@.take(h as int), LineType::Added),
                        removed == r0 + tree::count_type(f.hunks@.take(h as int), LineType::Removed),
                        a0 + tree::count_type(f.hunks@, LineType::Added) <= usize::MAX,
                        r0 + tree::count_type(f.hunks@, LineType::Removed) <= usize::MAX,
                    decreases f.hunks.len() - h,
                {
                    let ls = &f.hunks[h].lines;
                    assert(f.hunks@.take(h + 1).drop_last() =~= f.hunks@.take(h as int));
                    proof {
                        lemma_count_prefix_le(f.hunks@, h + 1, LineType::Added);
                        lemma_count_prefix_le(f.hunks@, h + 1, LineType::Removed);
                    }
                    let ghost a1 = added;
                    let ghost r1 = removed;
                    let mut k: usize = 0;
                    assert(ls@.take(0) =~= Seq::<HunkLine>::empty());
                    while k < ls.len()
                        invariant
                            k <= ls.len(),
                            ls == f.hunks@[h as int].lines,
                            added == a1 + tree::lines_of_type(ls@.take(k as int), LineType::Added),
                            removed == r1 + tree::lines_of_type(ls@.take(k as int), LineType::Removed),
                            a1 + tree::lines_of_type(ls@, LineType::Added) <= usize::MAX,
                            r1 + tree::lines_of_type(ls@, LineType::Removed) <= usize::MAX,
                        decreases ls.len() - k,
                    {
                        assert(ls@.take(k + 1).drop_last() =~= ls@.take(k as int));
                        proof {
                            lemma_lines_prefix_le(ls@, k + 1, LineType::Added);
                            lemma_lines_prefix_le(ls@, k + 1, LineType::Removed);
                        }
                        match ls[k].line_type {
                            LineType::Added => {
                                added = added + 1;
                            },
                            LineType::Removed => {
                                removed = removed + 1;
                            },
                            _ => {},
                        }
                        k = k + 1;
                    }
                    assert(ls@.take(ls.len() as int) =~= ls@);
                    h = h + 1;
                }
                assert(f.hunks@.take(f.hunks.len() as int) =~= f.hunks@);
            }
            i = i + 1;
        }
        (added, removed)
    }

    /// Moves the filter on (all, staged, unstaged), rebuilds the tree, keeps
    /// the selection within it, and says so in the status bar.
    pub fn cycle_filter(&mut self)
        requires
            old(self).wf(),
        ensures
            final(self).wf(),
            filter_cycled(*old(self), *final(self)),
    {
        self.search_results.clear();
        self.filter = match self.filter {
            Filter::All => Filter::Staged,
            Filter::Staged => Filter::Unstaged,
            Filter::Unstaged => Filter::All,
        };
        self.rebuild_tree();
        let last = if self.tree_entries.len() > 0 {
            self.tree_entries.len() - 1
        } else {
            0
        };
        if self.selected_tree_item > last {
            self.selected_tree_item = last;
        }
        navigation::update_selected_file_from_tree(self);
        self.diff_cursor = 0;
        self.diff_scroll = 0;
        let msg = crate::text::concat("Filter: ", filter_label_exec(self.filter));
        self.show_message(msg);
    }

    /// Starts a reload: clears the search results and says where the files
    /// come from (the range, the commit, the branch, or the working tree).
    pub fn begin_reload(&mut self) -> (src: FileSource)
        ensures
            final(self).search_results@.len() == 0,
            *final(self) == (App { search_results: final(self).search_results, ..*old(self) }),
            source_of(*old(self), src),
    {
        self.search_results.clear();
        match &self.compare_range {
            Some((l, r)) => FileSource::Range(l.clone(), r.clone()),
            None => match &self.compare_commit {
                Some(c) => FileSource::Commit(c.clone()),
                None => match &self.compare_branch {
                    Some(b) => FileSource::Branch(b.clone()),
                    None => FileSource::WorkingTree(self.show_untracked),
                },
            },
        }
    }

    /// Finishes a reload with the fetched `files`: the tree is rebuilt, the
    /// previously selected file is found again by its path (else the first
    /// file row is selected), the diff goes to its top, and the status bar
    /// says so. When the old file is gone and no row lists a file, the old
    /// selection stays even if it no longer names a file.
    pub fn finish_reload(&mut self, files: Vec<FileChange>)
        requires
            old(self).sizes_ok(),
            files_fit(files@),
        ensures
            final(self).sizes_ok(),
            final(self).tree_ok(),
            reloaded(*old(self), files@, *final(self)),
    {
        let old_path: Option<String> = if self.selected_file < self.files.len() {
            Some(self.files[self.selected_file].path.clone())
        } else {
            None
        };
        self.files = files;
        self.rebuild_tree();
        proof {
            tree::lemma_tree_rows_index(self.tree_entries@, self.files@, self.expanded_dirs@, self.filter);
        }
        match old_path {
            Some(path) => {
                match find_file_with_path(&self.files, path.as_str()) {
                    Some(idx) => {
                        self.selected_file = idx;
                        match find_row_of_file(&self.tree_entries, idx) {
                            Some(k) => {
                                self.selected_tree_item = k;
                            },
                            None => {},
                        }
                    },
                    None => {
                        if self.tree_entries.len() > 0 {
                            match find_first_file_row(&self.tree_entries) {
                                Some(k) => {
                                    self.selected_tree_item = k;
                                    match self.tree_entries[k].file_index {
                                        Some(i) => {
                                            self.selected_file = i;
                                        },
                                        None => {},
                                    }
                                },
                                None => {},
                            }
                        }
                    },
                }
            },
            None => {},
        }
        self.diff_cursor = 0;
        self.diff_scroll = 0;
        self.show_message("Files reloaded".to_owned());
    }
}

pub(crate) proof fn lemma_count_prefix_le(hs: Seq<Hunk>, k: int, t: LineType)
    requires
        0 <= k <= hs.len(),
    ensures
        tree::count_type(hs.take(k), t) <= tree::count_type(hs, t),
    decreases hs.len(),
{
    if k < hs.len() {
        assert(hs.drop_last().take(k) =~= hs.take(k));
        lemma_count_prefix_le(hs.drop_last(), k, t);
    } else {
        assert(hs.take(k) =~= hs);
    }
}

pub(crate) proof fn lemma_lines_prefix_le(ls: Seq<HunkLine>, k: int, t: LineType)
    requires
        0 <= k <= ls.len(),
    ensures
        tree::lines_of_type(ls.take(k), t) <= tree::lines_of_type(ls, t),
    decreases ls.len(),
{
    if k < ls.len() {
        assert(ls.drop_last().take(k) =~= ls.take(k));
        lemma_lines_prefix_le(ls.drop_last(), k, t);
    } else {
        assert(ls.take(k) =~= ls);
    }
}

} // verus!
