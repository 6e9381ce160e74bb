//! The file pane, the status bar, the search prompts and the pickers: the
//! texts they show and which entry is selected.

use vstd::prelude::*;
use vstd::string::StringExecFns;
use crate::app::App;
use crate::app::mode::{Mode, TreeEntry};
use crate::app::search::filter_text;
use crate::git::status::utf8_len;
use crate::search::GlobalMatch;
use crate::text::{chars_of, decimal, push_decimal, string_of_range};
use super::pieces::{char_at_byte, char_index};
use super::diff_pane::{short_ref, short_ref_exec};

verus! {

// ---------------------------------------------------------------------------
// The file pane
// ---------------------------------------------------------------------------

/// Two spaces per level of depth.
pub open spec fn indent(d: nat) -> Seq<char>
    decreases d,
{
    if d == 0 {
        Seq::empty()
    } else {
        indent((d - 1) as nat) + "  "@
    }
}

/// The texts of one tree row.
#[derive(Debug)]
pub struct TreeRowText {
    /// The indentation and the directory arrow (or blanks for a file).
    pub lead: String,
    /// For a file, its status code and a blank.
    pub status: Option<String>,
    pub name: String,
    /// ` +n` when lines were added.
    pub added: Option<String>,
    /// ` -n` when lines were removed.
    pub removed: Option<String>,
}

/// The view of optional text.
pub open spec fn opt_view(o: Option<String>) -> Option<Seq<char>> {
    match o {
        Some(s) => Some(s@),
        None => None,
    }
}

/// A line count with its sign, when there is any.
pub open spec fn count_text(sign: char, n: usize) -> Option<Seq<char>> {
    if n > 0 {
        Some(seq![' ', sign] + decimal(n as nat))
    } else {
        None
    }
}

/// The texts of the tree row for `e`.
pub open spec fn tree_row_texts(e: TreeEntry) -> (Seq<char>, Option<Seq<char>>, Seq<char>, Option<Seq<char>>, Option<Seq<char>>) {
    let arrow = if e.is_dir {
        if e.expanded {
            "▼ "@
        } else {
            "▶ "@
        }
    } else {
        "  "@
    };
    let status = if e.is_dir {
        None
    } else {
        Some(
            seq![
                match e.status {
                    Some(c) => c,
                    None => ' ',
                },
                ' ',
            ],
        )
    };
    (indent(e.depth as nat) + arrow, status, e.name@, count_text('+', e.added), count_text('-', e.removed))
}

/// The view of a tree row's texts.
pub open spec fn row_text_view(t: TreeRowText) -> (Seq<char>, Option<Seq<char>>, Seq<char>, Option<Seq<char>>, Option<Seq<char>>) {
    (t.lead@, opt_view(t.status), t.name@, opt_view(t.added), opt_view(t.removed))
}

fn count_text_exec(sign: char, n: usize) -> (r: Option<String>)
    ensures
        opt_view(r) == count_text(sign, n),
{
    if n > 0 {
        let mut s = String::new();
        s.push(' ');
        s.push(sign);
        push_decimal(&mut s, n);
        assert(s@ =~= seq![' ', sign] + decimal(n as nat));
        Some(s)
    } else {
        None
    }
}

/// The texts of the tree row for `e` (see `tree_row_texts`).
pub fn tree_row_text(e: &TreeEntry) -> (r: TreeRowText)
    ensures
        row_text_view(r) == tree_row_texts(*e),
{
    let mut lead = String::new();
    let mut d: usize = 0;
    while d < e.depth
        invariant
            d <= e.depth,
            lead@ == indent(d as nat),
        decreases e.depth - d,
    {
        lead.append("  ");
        d = d + 1;
    }
    let arrow = if e.is_dir {
        if e.expanded {
            "▼ "
        } else {
            "▶ "
        }
    } else {
        "  "
    };
    lead.append(arrow);
    let status = if e.is_dir {
        None
    } else {
        let mut s = String::new();
        s.push(
            match e.status {
                Some(c) => c,
                None => ' ',
            },
        );
        s.push(' ');
        Some(s)
    };
    let r = TreeRowText {
        lead,
        status,
        name: e.name.clone(),
        added: count_text_exec('+', e.added),
        removed: count_text_exec('-', e.removed),
    };
    assert(opt_view(r.status) =~= tree_row_texts(*e).1);
    r
}

/// The number of rows among the first `n` of `rows` that list a file.
pub open spec fn file_rows_upto(rows: Seq<TreeEntry>, n: int) -> nat
    decreases n,
{
    if n <= 0 {
        0
    } else {
        file_rows_upto(rows, n - 1) + if rows[n - 1].file_index is Some {
            1nat
        } else {
            0nat
        }
    }
}

/// The title of the file pane: the position of the selected row among the
/// rows that list files, out of all files.
pub open spec fn files_title_text(app: App) -> Seq<char> {
    let n = if (app.selected_tree_item as int) < app.tree_entries.len() {
        app.selected_tree_item + 1
    } else {
        app.tree_entries.len() as int
    };
    "Files "@ + decimal(file_rows_upto(app.tree_entries@, n)) + "/"@ + decimal(app.files.len() as nat)
}

/// The title of the file pane (see `files_title_text`).
pub fn files_title(app: &App) -> (r: String)
    requires
        app.sizes_ok(),
    ensures
        r@ == files_title_text(*app),
{
    let n = if app.selected_tree_item < app.tree_entries.len() {
        app.selected_tree_item + 1
    } else {
        app.tree_entries.len()
    };
    let mut count: usize = 0;
    let mut k: usize = 0;
    while k < n
        invariant
            k <= n <= app.tree_entries.len(),
            count == file_rows_upto(app.tree_entries@, k as int),
            count <= k,
        decreases n - k,
    {
        if app.tree_entries[k].file_index.is_some() {
            count = count + 1;
        }
        k = k + 1;
    }
    let mut s = "Files ".to_owned();
    push_decimal(&mut s, count);
    s.append("/");
    push_decimal(&mut s, app.files.len());
    s
}

/// The first row that the file list shows so that the selected row is
/// visible in a pane `h` rows high.
pub open spec fn list_offset(selected: usize, h: usize) -> usize {
    if h > 0 && selected >= h {
        (selected - h + 1) as usize
    } else {
        0
    }
}

/// The first row that the file list shows (see `list_offset`).
pub fn tree_list_offset(selected: usize, h: usize) -> (r: usize)
    ensures
        r == list_offset(selected, h),
{
    if h > 0 && selected >= h {
        selected - h + 1
    } else {
        0
    }
}

// ---------------------------------------------------------------------------
// The status bar
// ---------------------------------------------------------------------------

/// `s` cut to its first `width` bytes when it is longer; none when that cut
/// falls inside a character.
pub open spec fn fit_text(s: Seq<char>, width: usize) -> Option<Seq<char>> {
    if utf8_len(s) <= width {
        Some(s)
    } else {
        match char_at_byte(s, width as int) {
            Some(k) => Some(s.take(k)),
            None => None,
        }
    }
}

/// The text of the status bar for a bar `width` bytes wide (see
/// `fit_text`).
pub fn status_bar_text(app: &App, width: usize) -> (r: Option<String>)
    requires
        app.sizes_ok(),
    ensures
        match fit_text(super::super::app::status_text::status_line(*app), width) {
            Some(t) => r matches Some(s) && s@ == t,
            None => r is None,
        },
{
    let text = super::super::app::status_text::status_text(app);
    fit_width(text.as_str(), width)
}

/// `text` cut to `width` bytes (see `fit_text`).
pub fn fit_width(text: &str, width: usize) -> (r: Option<String>)
    ensures
        match fit_text(text@, width) {
            Some(t) => r matches Some(s) && s@ == t,
            None => r is None,
        },
{
    let v = chars_of(text);
    if super::diff_pane::utf8_len_at_most(v.as_slice(), width) {
        return Some(text.to_owned());
    }
    match char_index(v.as_slice(), width) {
        Some(k) => {
            assert(v@.subrange(0, k as int) =~= v@.take(k as int));
            Some(string_of_range(v.as_slice(), 0, k))
        },
        None => None,
    }
}

// ---------------------------------------------------------------------------
// The search prompt
// ---------------------------------------------------------------------------

/// The title of the search prompt, with the file filter of a content
/// query.
pub open spec fn search_title_text(app: App) -> Seq<char> {
    match app.mode {
        Mode::SearchContent => match filter_text(app) {
            Some(f) => "Search Content ["@ + f + "]"@,
            None => "Search Content"@,
        },
        Mode::SearchFilename => "Search Filename"@,
        _ => Seq::empty(),
    }
}

/// The line under the query: how many hits there are, or that there are
/// none for a query.
pub open spec fn search_count_text(app: App) -> Seq<char> {
    if app.search_results.len() == 0 && app.search_query@.len() > 0 {
        "No matches"@
    } else if app.search_results.len() > 0 {
        decimal(app.search_results.len() as nat) + " matches"@
    } else {
        Seq::empty()
    }
}

/// The title of the search prompt (see `search_title_text`).
pub fn search_title(app: &App) -> (r: String)
    ensures
        r@ == search_title_text(*app),
{
    match app.mode {
        Mode::SearchContent => match app.search_filter_text() {
            Some(f) => {
                let mut s = "Search Content [".to_owned();
                s.append(f.as_str());
                s.append("]");
                s
            },
            None => "Search Content".to_owned(),
        },
        Mode::SearchFilename => "Search Filename".to_owned(),
        _ => String::new(),
    }
}

/// The line under the query (see `search_count_text`).
pub fn search_count(app: &App) -> (r: String)
    ensures
        r@ == search_count_text(*app),
{
    if app.search_results.len() == 0 && !app.search_query.as_str().is_empty() {
        "No matches".to_owned()
    } else if app.search_results.len() > 0 {
        let mut s = String::new();
        push_decimal(&mut s, app.search_results.len());
        s.append(" matches");
        s
    } else {
        String::new()
    }
}

// ---------------------------------------------------------------------------
// The global search prompt
// ---------------------------------------------------------------------------

/// `n` in decimal, padded with blanks on the right to four characters.
pub open spec fn pad4(n: nat) -> Seq<char> {
    let d = decimal(n);
    if d.len() >= 4 {
        d
    } else {
        d + Seq::new((4 - d.len()) as nat, |i: int| ' ')
    }
}

/// The pieces of a global match as the prompt lists it: where it is, the
/// line before the match, the match, and the rest of the line; none when
/// the match's byte offsets fall inside characters.
pub open spec fn global_row_text(m: GlobalMatch) -> Option<(Seq<char>, Seq<char>, Seq<char>, Seq<char>)> {
    let c = m.content@;
    match (char_at_byte(c, m.match_start as int), char_at_byte(c, m.match_end as int)) {
        (Some(a), Some(b)) => if a <= b {
            Some(
                (
                    m.file_path@ + ":"@ + pad4(m.line_number as nat) + " "@,
                    c.take(a),
                    c.subrange(a, b),
                    c.skip(b),
                ),
            )
        } else {
            None
        },
        _ => None,
    }
}

/// One listed global match.
#[derive(Debug)]
pub struct GlobalRow {
    pub place: String,
    pub before: String,
    pub matched: String,
    pub after: String,
    pub selected: bool,
}

/// The view of a listed global match.
pub open spec fn global_row_view(r: GlobalRow) -> ((Seq<char>, Seq<char>, Seq<char>, Seq<char>), bool) {
    ((r.place@, r.before@, r.matched@, r.after@), r.selected)
}

/// The first match listed so that the selected one shows in `h` rows.
pub open spec fn global_offset(selected: usize, h: usize) -> int {
    if selected >= h {
        selected - h + 1
    } else {
        0
    }
}

/// The indices of the listed matches: from the offset, at most `h` of
/// them (none when `h` is zero).
pub open spec fn global_window(app: App, h: usize) -> (int, int) {
    let n = app.global_search_results.len() as int;
    if h == 0 {
        (0, 0)
    } else {
        let a = global_offset(app.global_search_selected, h);
        let a2 = if a < n {
            a
        } else {
            n
        };
        let b = if a + h < n {
            a + h
        } else {
            n
        };
        (a2, if b < a2 {
            a2
        } else {
            b
        })
    }
}

/// The listed matches, each with whether it is selected; none when a
/// listed match's offsets fall inside characters.
pub open spec fn global_rows(app: App, h: usize) -> Option<Seq<((Seq<char>, Seq<char>, Seq<char>, Seq<char>), bool)>> {
    let w = global_window(app, h);
    if exists|i: int| w.0 <= i < w.1 && (#[trigger] global_row_text(app.global_search_results@[i])) is None {
        None
    } else {
        Some(
            Seq::new(
                (w.1 - w.0) as nat,
                |i: int|
                    (
                        global_row_text(app.global_search_results@[w.0 + i])->0,
                        w.0 + i == app.global_search_selected,
                    ),
            ),
        )
    }
}

/// The status line of the global search: the selected match out of all.
pub open spec fn global_status_text(app: App) -> Seq<char> {
    let n = app.global_search_results.len();
    if n == 0 {
        Seq::empty()
    } else {
        decimal((app.global_search_selected + 1) as nat) + " / "@ + decimal(n as nat)
            + "    j/k:nav  Enter:jump  Esc:close"@
    }
}

fn pad4_exec(n: usize) -> (r: String)
    ensures
        r@ == pad4(n as nat),
{
    let mut s = String::new();
    push_decimal(&mut s, n);
    let ghost d = s@;
    assert(d == decimal(n as nat));
    let mut k: usize = chars_of(s.as_str()).len();
    assert(s@ =~= d + Seq::new((k - d.len()) as nat, |i: int| ' '));
    while k < 4
        invariant
            d == decimal(n as nat),
            (d.len() >= 4 && k == d.len()) || (d.len() < 4 && d.len() <= k <= 4),
            s@ == d + Seq::new((k - d.len()) as nat, |i: int| ' '),
        decreases 4 - k,
    {
        s.push(' ');
        assert(s@ =~= d + Seq::new((k + 1 - d.len()) as nat, |i: int| ' '));
        k = k + 1;
    }
    proof {
        if d.len() >= 4 {
            assert(s@ =~= d);
        }
    }
    s
}

/// The text of a listed global match (see `global_row_text`).
fn global_row(m: &GlobalMatch, selected: bool) -> (r: Option<GlobalRow>)
    ensures
        match global_row_text(*m) {
            Some(t) => r matches Some(g) && global_row_view(g) == (t, selected),
            None => r is None,
        },
{
    let v = chars_of(m.content.as_str());
    let a = match char_index(v.as_slice(), m.match_start) {
        Some(a) => a,
        None => {
            return None;
        },
    };
    let b = match char_index(v.as_slice(), m.match_end) {
        Some(b) => b,
        None => {
            return None;
        },
    };
    if a > b {
        return None;
    }
    let mut place = m.file_path.clone();
    place.append(":");
    let pad = pad4_exec(m.line_number);
    place.append(pad.as_str());
    place.append(" ");
    let before = string_of_range(v.as_slice(), 0, a);
    let matched = string_of_range(v.as_slice(), a, b);
    let after = string_of_range(v.as_slice(), b, v.len());
    assert(v@.subrange(0, a as int) =~= v@.take(a as int));
    assert(v@.subrange(b as int, v@.len() as int) =~= v@.skip(b as int));
    Some(GlobalRow { place, before, matched, after, selected })
}

/// The global search prompt as shown in `h` rows of matches.
#[derive(Debug)]
pub struct GlobalPrompt {
    /// The listed matches.
    pub rows: Vec<GlobalRow>,
    /// What stands in place of the list when it is empty.
    pub empty_note: String,
    /// The status line.
    pub status: String,
}

/// The global search prompt for `h` rows of matches; none when a listed
/// match's offsets fall inside characters.
pub fn global_prompt(app: &App, h: usize) -> (r: Option<GlobalPrompt>)
    requires
        app.sizes_ok(),
    ensures
        match global_rows(*app, h) {
            None => r is None,
            Some(rows) => r matches Some(p) && p.rows@.map_values(|g: GlobalRow| global_row_view(g)) == rows
                && p.status@ == global_status_text(*app) && p.empty_note@ == if rows.len() > 0
                || app.global_search_query@.len() == 0 {
                Seq::<char>::empty()
            } else {
                "No matches"@
            },
        },
{
    let n = app.global_search_results.len();
    let sel = app.global_search_selected;
    let (start, end) = if h == 0 {
        (0, 0)
    } else {
        let a = if sel >= h {
            sel - h + 1
        } else {
            0
        };
        let a2 = if a < n {
            a
        } else {
            n
        };
        let b = if a < n && h < n - a {
            a + h
        } else {
            n
        };
        (a2, if b < a2 {
            a2
        } else {
            b
        })
    };
    assert((start as int, end as int) == global_window(*app, h));
    let ghost want_rows = Seq::new(
        (end - start) as nat,
        |i: int| (global_row_text(app.global_search_results@[start + i])->0, start + i == sel),
    );
    let mut rows: Vec<GlobalRow> = Vec::new();
    let mut g = start;
    while g < end
        invariant
            start <= g <= end <= n,
            (start as int, end as int) == global_window(*app, h),
            n == app.global_search_results.len(),
            sel == app.global_search_selected,
            forall|i: int| start <= i < g ==> (#[trigger] global_row_text(app.global_search_results@[i])) is Some,
            rows@.map_values(|x: GlobalRow| global_row_view(x)) == want_rows.take(g - start),
            want_rows == Seq::new(
                (end - start) as nat,
                |i: int| (global_row_text(app.global_search_results@[start + i])->0, start + i == sel),
            ),
        decreases end - g,
    {
        match global_row(&app.global_search_results[g], g == sel) {
            Some(row) => {
                let ghost prev = rows@.map_values(|x: GlobalRow| global_row_view(x));
                rows.push(row);
                assert(rows@.map_values(|x: GlobalRow| global_row_view(x)) =~= prev.push(global_row_view(row)));
                assert(want_rows.take(g + 1 - start) =~= want_rows.take(g - start).push(want_rows[g - start]));
            },
            None => {
                assert(global_row_text(app.global_search_results@[g as int]) is None);
                return None;
            },
        }
        g = g + 1;
    }
    assert(want_rows.take(end - start) =~= want_rows);
    let status = if n == 0 {
        String::new()
    } else {
        let mut s = String::new();
        push_decimal(&mut s, sel + 1);
        s.append(" / ");
        push_decimal(&mut s, n);
        s.append("    j/k:nav  Enter:jump  Esc:close");
        s
    };
    let empty_note = if rows.len() > 0 || app.global_search_query.as_str().is_empty() {
        String::new()
    } else {
        "No matches".to_owned()
    };
    Some(GlobalPrompt { rows, empty_note, status })
}

// ---------------------------------------------------------------------------
// The pickers
// ---------------------------------------------------------------------------

/// The marker before a picker entry: an arrow for the selected one.
pub open spec fn pick_prefix(selected: bool) -> Seq<char> {
    if selected {
        "> "@
    } else {
        "  "@
    }
}

/// The lines of the branch picker, each with whether it is selected.
pub open spec fn branch_lines_text(app: App) -> Seq<(Seq<char>, bool)> {
    Seq::new(
        app.branches@.len(),
        |i: int|
            (pick_prefix(i == app.selected_branch) + app.branches@[i]@, i == app.selected_branch),
    )
}

/// The lines of the branch picker (see `branch_lines_text`).
pub fn branch_lines(app: &App) -> (r: Vec<(String, bool)>)
    ensures
        r@.map_values(|x: (String, bool)| (x.0@, x.1)) == branch_lines_text(*app),
{
    let ghost want = branch_lines_text(*app);
    let mut out: Vec<(String, bool)> = Vec::new();
    let mut i: usize = 0;
    while i < app.branches.len()
        invariant
            i <= app.branches.len(),
            want == branch_lines_text(*app),
            out@.map_values(|x: (String, bool)| (x.0@, x.1)) == want.take(i as int),
        decreases app.branches.len() - i,
    {
        let sel = i == app.selected_branch;
        let mut s = if sel {
            "> ".to_owned()
        } else {
            "  ".to_owned()
        };
        s.append(app.branches[i].as_str());
        let ghost prev = out@.map_values(|x: (String, bool)| (x.0@, x.1));
        out.push((s, sel));
        assert(out@.map_values(|x: (String, bool)| (x.0@, x.1)) =~= prev.push((s@, sel)));
        assert(want.take(i + 1) =~= want.take(i as int).push(want[i as int]));
        i = i + 1;
    }
    assert(want.take(app.branches.len() as int) =~= want);
    out
}

/// The lines of the commit picker, each with whether it is selected: the
/// short hash and the subject; none when a short hash would cut a
/// character.
pub open spec fn commit_lines_text(app: App) -> Option<Seq<(Seq<char>, bool)>> {
    if exists|i: int| 0 <= i < app.commits@.len() && (#[trigger] short_ref(app.commits@[i].0@)) is None {
        None
    } else {
        Some(
            Seq::new(
                app.commits@.len(),
                |i: int|
                    (
                        pick_prefix(i == app.selected_commit) + short_ref(app.commits@[i].0@)->0 + "  "@
                            + app.commits@[i].1@,
                        i == app.selected_commit,
                    ),
            ),
        )
    }
}

/// The lines of the commit picker (see `commit_lines_text`).
pub fn commit_lines(app: &App) -> (r: Option<Vec<(String, bool)>>)
    ensures
        match commit_lines_text(*app) {
            Some(want) => r matches Some(v) && v@.map_values(|x: (String, bool)| (x.0@, x.1)) == want,
            None => r is None,
        },
{
    let ghost want = Seq::new(
        app.commits@.len(),
        |i: int|
            (
                pick_prefix(i == app.selected_commit) + short_ref(app.commits@[i].0@)->0 + "  "@
                    + app.commits@[i].1@,
                i == app.selected_commit,
            ),
    );
    let mut out: Vec<(String, bool)> = Vec::new();
    let mut i: usize = 0;
    while i < app.commits.len()
        invariant
            i <= app.commits.len(),
            want == Seq::new(
                app.commits@.len(),
                |i: int|
                    (
                        pick_prefix(i == app.selected_commit) + short_ref(app.commits@[i].0@)->0 + "  "@
                            + app.commits@[i].1@,
                        i == app.selected_commit,
                    ),
            ),
            forall|j: int| 0 <= j < i ==> (#[trigger] short_ref(app.commits@[j].0@)) is Some,
            out@.map_values(|x: (String, bool)| (x.0@, x.1)) == want.take(i as int),
        decreases app.commits.len() - i,
    {
        let sel = i == app.selected_commit;
        let short = match short_ref_exec(app.commits[i].0.as_str()) {
            Some(s) => s,
            None => {
                assert(short_ref(app.commits@[i as int].0@) is None);
                return None;
            },
        };
        let mut s = if sel {
            "> ".to_owned()
        } else {
            "  ".to_owned()
        };
        s.append(short.as_str());
        s.append("  ");
        s.append(app.commits[i].1.as_str());
        let ghost prev = out@.map_values(|x: (String, bool)| (x.0@, x.1));
        out.push((s, sel));
        assert(out@.map_values(|x: (String, bool)| (x.0@, x.1)) =~= prev.push((s@, sel)));
        assert(want.take(i + 1) =~= want.take(i as int).push(want[i as int]));
        i = i + 1;
    }
    assert(want.take(app.commits.len() as int) =~= want);
    Some(out)
}

} // verus!
