//! The diff pane: its title, its visible rows with their marked pieces,
//! and the rows of the side-by-side view.

use vstd::prelude::*;
use crate::app::App;
use crate::app::mode::{DiffLine, Focus};
use crate::app::{row_view, rows_view};
use crate::git::{Hunk, HunkLine, LineType};
use crate::git::status::utf8_len;
use crate::search::{compile, pattern_find_spans, pattern_is_match, regex_compiles, regex_escape, regex_escaped, regex_find_spans, regex_is_match};
use crate::text::{chars_of, decimal, push_decimal, string_of_range};
use vstd::string::StringExecFns;
use super::pieces::{Mark, Piece, char_at_byte, char_index, highlight_line, match_pieces, pieces_view, word_diff_line, word_diff_pieces};

verus! {

// ---------------------------------------------------------------------------
// The title
// ---------------------------------------------------------------------------

/// At most the first seven bytes of `c`, as a short commit name; none when
/// byte seven falls inside a character.
pub open spec fn short_ref(c: Seq<char>) -> Option<Seq<char>> {
    if utf8_len(c) <= 7 {
        Some(c)
    } else {
        match char_at_byte(c, 7) {
            Some(k) => Some(c.take(k)),
            None => None,
        }
    }
}

/// The short commit name (exec form of `short_ref`).
pub fn short_ref_exec(c: &str) -> (r: Option<String>)
    ensures
        match short_ref(c@) {
            Some(s) => r matches Some(t) && t@ == s,
            None => r is None,
        },
{
    let v = chars_of(c);
    assert(v@.take(v@.len() as int) =~= v@);
    if utf8_len_at_most(v.as_slice(), 7) {
        return Some(c.to_owned());
    }
    match char_index(v.as_slice(), 7) {
        Some(k) => {
            assert(v@.subrange(0, k as int) =~= v@.take(k as int));
            assert(char_at_byte(c@, 7) == Some(k as int));
            assert(short_ref(c@) == Some(c@.take(k as int)));
            let t = string_of_range(v.as_slice(), 0, k);
            assert(t@ == c@.take(k as int));
            Some(t)
        },
        None => {
            assert(char_at_byte(c@, 7) is None);
            None
        },
    }
}

/// Whether the UTF-8 length of `v` is at most `n`.
pub(crate) fn utf8_len_at_most(v: &[char], n: usize) -> (r: bool)
    ensures
        r == (utf8_len(v@) <= n),
{
    let mut acc: usize = 0;
    let mut k: usize = 0;
    assert(v@.take(0) =~= Seq::<char>::empty());
    while k < v.len()
        invariant
            k <= v.len(),
            acc == utf8_len(v@.take(k as int)),
            acc <= n,
        decreases v.len() - k,
    {
        let w = crate::git::status::utf8_width_exec(v[k]);
        assert(v@.take(k + 1).drop_last() =~= v@.take(k as int));
        if w > n - acc {
            proof {
                super::pieces::lemma_utf8_len_monotone(v@, k + 1, v@.len() as int);
                assert(v@.take(v@.len() as int) =~= v@);
            }
            return false;
        }
        acc = acc + w;
        k = k + 1;
    }
    assert(v@.take(v@.len() as int) =~= v@);
    true
}

/// The number of the hunk under the diff cursor, counted from 1 (0 when
/// the cursor is past the rows).
pub open spec fn hunk_number(app: App) -> nat {
    let rows = app.diff_view();
    if rows.len() == 0 || app.diff_cursor >= rows.len() {
        0
    } else {
        (rows[app.diff_cursor as int].2 + 1) as nat
    }
}

/// The title of the diff pane: the file, what it is compared against, the
/// hunk under the cursor out of the file's hunks, and arrows when rows lie
/// above or below the visible ones. None when the commit's short name
/// would cut a character.
pub open spec fn diff_title_text(app: App) -> Option<Seq<char>> {
    let file = if app.files.len() == 0 {
        Seq::empty()
    } else {
        app.files@[app.selected_file as int].path@
    };
    let count = if app.files.len() == 0 {
        0nat
    } else {
        app.files@[app.selected_file as int].hunks@.len()
    };
    let hunks = "  hunk "@ + decimal(hunk_number(app)) + "/"@ + decimal(count);
    let body = match app.compare_commit {
        Some(c) => match short_ref(c@) {
            Some(s) => Some(file + " @ "@ + s + hunks),
            None => None,
        },
        None => match app.compare_branch {
            Some(b) => Some(file + " vs "@ + b@ + hunks),
            None => Some(file + hunks),
        },
    };
    match body {
        None => None,
        Some(t) => {
            let t1 = if app.diff_scroll > 0 {
                "↑ "@ + t
            } else {
                t
            };
            Some(
                if app.diff_scroll + app.diff_visible_height < app.diff_view().len() {
                    t1 + " ↓"@
                } else {
                    t1
                },
            )
        },
    }
}

/// The title of the diff pane (see `diff_title_text`).
pub fn diff_title(app: &App) -> (r: Option<String>)
    requires
        app.wf(),
    ensures
        match diff_title_text(*app) {
            Some(t) => r matches Some(s) && s@ == t,
            None => r is None,
        },
{
    let lines = app.diff_lines();
    let ghost rows = app.diff_view();
    let (file, count) = if app.files.len() == 0 {
        (String::new(), 0usize)
    } else {
        (app.files[app.selected_file].path.clone(), app.files[app.selected_file].hunks.len())
    };
    let number: usize = if lines.len() == 0 || app.diff_cursor >= lines.len() {
        0
    } else {
        assert(row_view(lines@[app.diff_cursor as int]) == rows[app.diff_cursor as int]);
        proof {
            crate::app::navigation::lemma_diff_view_len(*app);
            crate::app::lemma_view_hunk_index(*app);
        }
        lines[app.diff_cursor].hunk_index + 1
    };
    let mut hunks = "  hunk ".to_owned();
    push_decimal(&mut hunks, number);
    hunks.append("/");
    push_decimal(&mut hunks, count);
    let mut t = file;
    match &app.compare_commit {
        Some(c) => {
            match short_ref_exec(c.as_str()) {
                Some(s) => {
                    t.append(" @ ");
                    t.append(s.as_str());
                },
                None => {
                    return None;
                },
            }
        },
        None => {
            match &app.compare_branch {
                Some(b) => {
                    t.append(" vs ");
                    t.append(b.as_str());
                },
                None => {},
            }
        },
    }
    t.append(hunks.as_str());
    let mut title = if app.diff_scroll > 0 {
        crate::text::concat("↑ ", t.as_str())
    } else {
        t
    };
    if app.diff_scroll + app.diff_visible_height < lines.len() {
        title.append(" ↓");
    }
    Some(title)
}

// ---------------------------------------------------------------------------
// The visible rows
// ---------------------------------------------------------------------------

/// The regular expression text that marks the last search in the diff:
/// the query taken literally, ignoring case.
pub open spec fn search_source(q: Seq<char>) -> Seq<char> {
    "(?i)"@ + regex_escaped(q)
}

/// The regular expression that marks the last search, when there is a
/// query and its expression compiles.
pub open spec fn marker_source(app: App) -> Option<Seq<char>> {
    let q = app.last_search_query@;
    if q.len() == 0 || !regex_compiles(search_source(q)) {
        None
    } else {
        Some(search_source(q))
    }
}

/// The pieces of row `g` of `rows`: the search matches when the marking
/// expression matches the row; else, for an added row after a removed one
/// (or a removed row before an added one), the changed middle against it;
/// else the whole row.
pub open spec fn row_pieces(rows: Seq<(Seq<char>, LineType, usize)>, g: int, marker: Option<Seq<char>>) -> Seq<(Seq<char>, Mark)> {
    let c = rows[g].0;
    let t = rows[g].1;
    if marker is Some && regex_is_match(marker->0, c) {
        match_pieces(c, regex_find_spans(marker->0, c))
    } else if (t == LineType::Added || t == LineType::Removed) && g > 0 && g < rows.len() {
        let o = if t == LineType::Added {
            g - 1
        } else {
            g + 1
        };
        if o < rows.len() && ((t == LineType::Added && rows[o].1 == LineType::Removed) || (t
            == LineType::Removed && rows[o].1 == LineType::Added)) {
            word_diff_pieces(c, rows[o].0)
        } else {
            seq![(c, Mark::Plain)]
        }
    } else {
        seq![(c, Mark::Plain)]
    }
}

/// A visible row of the diff pane.
#[derive(Debug)]
pub struct PaneRow {
    pub pieces: Vec<Piece>,
    pub line_type: LineType,
    /// The row is under the cursor of the focused diff.
    pub is_cursor: bool,
    /// The row belongs to the hunk under the cursor of the focused diff.
    pub in_hunk: bool,
}

/// The view of a pane row.
pub open spec fn pane_row_view(r: PaneRow) -> (Seq<(Seq<char>, Mark)>, LineType, bool, bool) {
    (pieces_view(r.pieces@), r.line_type, r.is_cursor, r.in_hunk)
}

/// The first row shown and one past the last: the rows from the scroll
/// offset on, as many as the pane is high.
pub open spec fn window(len: int, scroll: int, height: int) -> (int, int) {
    let a = if scroll < len {
        scroll
    } else {
        len
    };
    let b = if scroll + height < len {
        scroll + height
    } else {
        len
    };
    (a, if b < a {
        a
    } else {
        b
    })
}

/// Row `g` of the diff pane as shown: its pieces, its kind, and whether it
/// is under the cursor or in the cursor's hunk while the diff has the
/// focus.
pub open spec fn pane_row_at(app: App, g: int) -> (Seq<(Seq<char>, Mark)>, LineType, bool, bool) {
    let rows = app.diff_view();
    let focused = app.focus == Focus::Diff;
    let cur = app.diff_cursor as int;
    let cur_hunk = if cur < rows.len() {
        rows[cur].2
    } else {
        0
    };
    (row_pieces(rows, g, marker_source(app)), rows[g].1, g == cur && focused, rows[g].2 == cur_hunk && focused)
}

/// The visible rows of the diff pane.
pub open spec fn pane_rows(app: App) -> Seq<(Seq<(Seq<char>, Mark)>, LineType, bool, bool)> {
    let w = window(app.diff_view().len() as int, app.diff_scroll as int, app.diff_visible_height as int);
    Seq::new((w.1 - w.0) as nat, |i: int| pane_row_at(app, w.0 + i))
}

/// The pieces of row `g` (exec form of `row_pieces`).
fn pieces_of_row(lines: &Vec<DiffLine>, g: usize, marker: &Option<crate::search::CompiledPattern>) -> (r: Vec<Piece>)
    requires
        g < lines.len(),
    ensures
        pieces_view(r@) == row_pieces(
            rows_view(lines@),
            g as int,
            match marker {
                Some(p) => Some(p.source()),
                None => None,
            },
        ),
{
    let ghost rows = rows_view(lines@);
    let line = &lines[g];
    assert(rows[g as int] == row_view(lines@[g as int]));
    match marker {
        Some(p) => {
            if pattern_is_match(p, line.content.as_str()) {
                let spans = pattern_find_spans(p, line.content.as_str());
                return highlight_line(line.content.as_str(), &spans);
            }
        },
        None => {},
    }
    let t = line.line_type;
    if (t == LineType::Added || t == LineType::Removed) && g > 0 && g < lines.len() {
        let o = if t == LineType::Added {
            g - 1
        } else {
            g + 1
        };
        if o < lines.len() {
            assert(rows[o as int] == row_view(lines@[o as int]));
            let ot = lines[o].line_type;
            if (t == LineType::Added && ot == LineType::Removed) || (t == LineType::Removed && ot
                == LineType::Added) {
                return word_diff_line(line.content.as_str(), lines[o].content.as_str());
            }
        }
    }
    let mut r: Vec<Piece> = Vec::new();
    r.push(Piece { text: line.content.clone(), mark: Mark::Plain });
    assert(pieces_view(r@) =~= seq![(line.content@, Mark::Plain)]);
    r
}

/// The visible rows of the diff pane (see `pane_rows`).
pub fn diff_pane_rows(app: &App) -> (r: Vec<PaneRow>)
    requires
        app.wf(),
    ensures
        r@.map_values(|p: PaneRow| pane_row_view(p)) == pane_rows(*app),
{
    let lines = app.diff_lines();
    let ghost rows = app.diff_view();
    proof {
        crate::app::navigation::lemma_diff_view_len(*app);
    }
    let marker = if app.last_search_query.as_str().is_empty() {
        None
    } else {
        let esc = regex_escape(app.last_search_query.as_str());
        let src = crate::text::concat("(?i)", esc.as_str());
        match compile(src.as_str()) {
            Ok(p) => Some(p),
            Err(_) => None,
        }
    };
    let ghost msrc = match &marker {
        Some(p) => Some(p.source()),
        None => None,
    };
    assert(msrc == marker_source(*app));
    let n = lines.len();
    let scroll = app.diff_scroll;
    let h = app.diff_visible_height;
    let start = if scroll < n {
        scroll
    } else {
        n
    };
    let end0 = if scroll + h < n {
        scroll + h
    } else {
        n
    };
    let end = if end0 < start {
        start
    } else {
        end0
    };
    let focused = app.focus == Focus::Diff;
    let cur = app.diff_cursor;
    let cur_hunk = if cur < n {
        assert(rows[cur as int] == row_view(lines@[cur as int]));
        lines[cur].hunk_index
    } else {
        0
    };
    let ghost want = pane_rows(*app);
    let mut out: Vec<PaneRow> = Vec::new();
    let mut g = start;
    while g < end
        invariant
            start <= g <= end <= n,
            n == lines.len(),
            rows == rows_view(lines@),
            rows == app.diff_view(),
            rows.len() == n,
            want == pane_rows(*app),
            (start as int, end as int) == window(n as int, app.diff_scroll as int, app.diff_visible_height as int),
            msrc == marker_source(*app),
            msrc == match marker {
                Some(p) => Some(p.source()),
                None => None,
            },
            focused == (app.focus == Focus::Diff),
            cur == app.diff_cursor,
            cur_hunk == if (cur as int) < rows.len() {
                rows[cur as int].2
            } else {
                0
            },
            out@.map_values(|p: PaneRow| pane_row_view(p)) == want.take(g - start),
        decreases end - g,
    {
        let pieces = pieces_of_row(&lines, g, &marker);
        assert(rows[g as int] == row_view(lines@[g as int]));
        let row = PaneRow {
            pieces,
            line_type: lines[g].line_type,
            is_cursor: g == cur && focused,
            in_hunk: lines[g].hunk_index == cur_hunk && focused,
        };
        let ghost prev = out@.map_values(|p: PaneRow| pane_row_view(p));
        out.push(row);
        assert(out@.map_values(|p: PaneRow| pane_row_view(p)) =~= prev.push(pane_row_view(row)));
        assert(want.len() == end - start);
        assert(want[g - start] == pane_row_at(*app, g as int));
        assert(pane_row_at(*app, g as int) == pane_row_view(row));
        assert(want.take(g + 1 - start) =~= want.take(g - start).push(want[g - start]));
        g = g + 1;
    }
    assert(want.take(end - start) =~= want);
    out
}

// ---------------------------------------------------------------------------
// Side by side
// ---------------------------------------------------------------------------

/// A row of the side-by-side view: the old line on the left, the new one
/// on the right, each with its kind (none for a blank side).
#[derive(Debug, Clone)]
pub struct SideRow {
    pub left: String,
    pub right: String,
    pub left_type: Option<LineType>,
    pub right_type: Option<LineType>,
}

/// The view of a side-by-side row.
pub open spec fn side_view(r: SideRow) -> (Seq<char>, Seq<char>, Option<LineType>, Option<LineType>) {
    (r.left@, r.right@, r.left_type, r.right_type)
}

/// Rows for removed lines without a counterpart, in order.
pub open spec fn removed_rows(p: Seq<Seq<char>>) -> Seq<(Seq<char>, Seq<char>, Option<LineType>, Option<LineType>)> {
    p.map_values(|x: Seq<char>| (x, Seq::<char>::empty(), Some(LineType::Removed), None::<LineType>))
}

/// One line of a hunk taken into the rows and the removed lines still
/// waiting for a counterpart: a context line lets the waiting lines out
/// and stands on both sides; a removed line waits; an added line pairs
/// with the last waiting line, or stands alone on the right.
pub open spec fn side_step(
    st: (Seq<(Seq<char>, Seq<char>, Option<LineType>, Option<LineType>)>, Seq<Seq<char>>),
    l: HunkLine,
) -> (Seq<(Seq<char>, Seq<char>, Option<LineType>, Option<LineType>)>, Seq<Seq<char>>) {
    let rows = st.0;
    let pend = st.1;
    let c = l.content@;
    match l.line_type {
        LineType::Context => (
            rows + removed_rows(pend) + seq![(c, c, Some(LineType::Context), Some(LineType::Context))],
            Seq::empty(),
        ),
        LineType::Removed => (rows, pend.push(c)),
        LineType::Added => if pend.len() > 0 {
            (rows.push((pend.last(), c, Some(LineType::Removed), Some(LineType::Added))), pend.drop_last())
        } else {
            (rows.push((Seq::empty(), c, None, Some(LineType::Added))), pend)
        },
        _ => st,
    }
}

/// The lines `ls` taken in order (see `side_step`).
pub open spec fn side_fold(ls: Seq<HunkLine>) -> (Seq<(Seq<char>, Seq<char>, Option<LineType>, Option<LineType>)>, Seq<Seq<char>>)
    decreases ls.len(),
{
    if ls.len() == 0 {
        (Seq::empty(), Seq::empty())
    } else {
        side_step(side_fold(ls.drop_last()), ls.last())
    }
}

/// The side-by-side rows of the hunks `hs`: per hunk, its lines taken in
/// order, then the removed lines still waiting.
pub open spec fn side_rows(hs: Seq<Hunk>) -> Seq<(Seq<char>, Seq<char>, Option<LineType>, Option<LineType>)>
    decreases hs.len(),
{
    if hs.len() == 0 {
        Seq::empty()
    } else {
        let st = side_fold(hs.last().lines@);
        side_rows(hs.drop_last()) + st.0 + removed_rows(st.1)
    }
}

/// Appends a row for each waiting removed line, in order, and empties the
/// waiting lines.
fn flush_removed(rows: &mut Vec<SideRow>, pending: &mut Vec<String>)
    ensures
        final(rows)@.map_values(|r: SideRow| side_view(r)) == old(rows)@.map_values(|r: SideRow| side_view(r))
            + removed_rows(old(pending)@.map_values(|s: String| s@)),
        final(pending)@.len() == 0,
{
    let ghost base = rows@.map_values(|r: SideRow| side_view(r));
    let ghost pv = pending@.map_values(|s: String| s@);
    let mut k: usize = 0;
    while k < pending.len()
        invariant
            k <= pending.len(),
            pv == pending@.map_values(|s: String| s@),
            pending@ == old(pending)@,
            base == old(rows)@.map_values(|r: SideRow| side_view(r)),
            rows@.map_values(|r: SideRow| side_view(r)) == base + removed_rows(pv.take(k as int)),
        decreases pending.len() - k,
    {
        let ghost prev = rows@.map_values(|r: SideRow| side_view(r));
        let row = SideRow {
            left: pending[k].clone(),
            right: String::new(),
            left_type: Some(LineType::Removed),
            right_type: None,
        };
        rows.push(row);
        assert(rows@.map_values(|r: SideRow| side_view(r)) =~= prev.push(side_view(row)));
        assert(removed_rows(pv.take(k + 1)) =~= removed_rows(pv.take(k as int)).push(side_view(row)));
        k = k + 1;
    }
    assert(pv.take(pending.len() as int) =~= pv);
    *pending = Vec::new();
}

/// The rows of the side-by-side view of the hunks `hunks` (see
/// `side_rows`).
pub fn side_by_side_rows(hunks: &Vec<Hunk>) -> (r: Vec<SideRow>)
    ensures
        r@.map_values(|x: SideRow| side_view(x)) == side_rows(hunks@),
{
    let mut rows: Vec<SideRow> = Vec::new();
    let mut h: usize = 0;
    assert(hunks@.take(0) =~= Seq::<Hunk>::empty());
    assert(rows@.map_values(|x: SideRow| side_view(x)) =~= side_rows(hunks@.take(0)));
    while h < hunks.len()
        invariant
            h <= hunks.len(),
            rows@.map_values(|x: SideRow| side_view(x)) == side_rows(hunks@.take(h as int)),
        decreases hunks.len() - h,
    {
        let ls = &hunks[h].lines;
        let ghost base = rows@.map_values(|x: SideRow| side_view(x));
        let mut pending: Vec<String> = Vec::new();
        let mut k: usize = 0;
        assert(ls@.take(0) =~= Seq::<HunkLine>::empty());
        assert(rows@.map_values(|x: SideRow| side_view(x)) =~= base + side_fold(ls@.take(0)).0);
        while k < ls.len()
            invariant
                k <= ls.len(),
                ls == hunks@[h as int].lines,
                rows@.map_values(|x: SideRow| side_view(x)) == base + side_fold(ls@.take(k as int)).0,
                pending@.map_values(|s: String| s@) == side_fold(ls@.take(k as int)).1,
            decreases ls.len() - k,
        {
            let line = &ls[k];
            let ghost st = side_fold(ls@.take(k as int));
            assert(ls@.take(k + 1).drop_last() =~= ls@.take(k as int));
            assert(ls@.take(k + 1).last() == ls@[k as int]);
            let ghost prev = rows@.map_values(|x: SideRow| side_view(x));
            match line.line_type {
                LineType::Context => {
                    flush_removed(&mut rows, &mut pending);
                    let row = SideRow {
                        left: line.content.clone(),
                        right: line.content.clone(),
                        left_type: Some(LineType::Context),
                        right_type: Some(LineType::Context),
                    };
                    let ghost mid = rows@.map_values(|x: SideRow| side_view(x));
                    rows.push(row);
                    assert(rows@.map_values(|x: SideRow| side_view(x)) =~= mid.push(side_view(row)));
                    assert(pending@.map_values(|s: String| s@) =~= Seq::<Seq<char>>::empty());
                },
                LineType::Removed => {
                    let ghost pv = pending@.map_values(|s: String| s@);
                    pending.push(line.content.clone());
                    assert(pending@.map_values(|s: String| s@) =~= pv.push(line.content@));
                },
                LineType::Added => {
                    let ghost pv = pending@.map_values(|s: String| s@);
                    match pending.pop() {
                        Some(rem) => {
                            let row = SideRow {
                                left: rem,
                                right: line.content.clone(),
                                left_type: Some(LineType::Removed),
                                right_type: Some(LineType::Added),
                            };
                            rows.push(row);
                            assert(rows@.map_values(|x: SideRow| side_view(x)) =~= prev.push(side_view(row)));
                            assert(pending@.map_values(|s: String| s@) =~= pv.drop_last());
                        },
                        None => {
                            let row = SideRow {
                                left: String::new(),
                                right: line.content.clone(),
                                left_type: None,
                                right_type: Some(LineType::Added),
                            };
                            rows.push(row);
                            assert(rows@.map_values(|x: SideRow| side_view(x)) =~= prev.push(side_view(row)));
                        },
                    }
                },
                _ => {},
            }
            k = k + 1;
        }
        assert(ls@.take(ls.len() as int) =~= ls@);
        flush_removed(&mut rows, &mut pending);
        assert(hunks@.take(h + 1).drop_last() =~= hunks@.take(h as int));
        assert(hunks@.take(h + 1).last() == hunks@[h as int]);
        h = h + 1;
    }
    assert(hunks@.take(hunks.len() as int) =~= hunks@);
    rows
}

/// The side-by-side rows of the selected file (none without files).
pub open spec fn selected_side_rows(app: App) -> Seq<(Seq<char>, Seq<char>, Option<LineType>, Option<LineType>)> {
    if app.files.len() == 0 {
        Seq::empty()
    } else {
        side_rows(app.files@[app.selected_file as int].hunks@)
    }
}

/// The visible rows of the side-by-side view of the selected file, each
/// marked when it is the row that the cursor position picks among the
/// visible ones in the focused diff.
pub open spec fn side_pane_rows(app: App) -> Seq<((Seq<char>, Seq<char>, Option<LineType>, Option<LineType>), bool)> {
    let rows = selected_side_rows(app);
    let w = window(rows.len() as int, app.diff_scroll as int, app.diff_visible_height as int);
    Seq::new((w.1 - w.0) as nat, |i: int| (rows[w.0 + i], i == app.diff_cursor && app.focus == Focus::Diff))
}

/// The visible rows of the side-by-side view (see `side_pane_rows`).
pub fn side_by_side_view(app: &App) -> (r: Vec<(SideRow, bool)>)
    requires
        app.wf(),
    ensures
        r@.map_values(|x: (SideRow, bool)| (side_view(x.0), x.1)) == side_pane_rows(*app),
{
    let all = if app.files.len() == 0 {
        let v: Vec<SideRow> = Vec::new();
        assert(v@.map_values(|x: SideRow| side_view(x)) =~= Seq::empty());
        v
    } else {
        side_by_side_rows(&app.files[app.selected_file].hunks)
    };
    let ghost rows = all@.map_values(|x: SideRow| side_view(x));
    assert(rows == selected_side_rows(*app));
    let n = all.len();
    let scroll = app.diff_scroll;
    let h = app.diff_visible_height;
    let start = if scroll < n {
        scroll
    } else {
        n
    };
    let end0 = if scroll + h < n {
        scroll + h
    } else {
        n
    };
    let end = if end0 < start {
        start
    } else {
        end0
    };
    let focused = app.focus == Focus::Diff;
    let ghost want = side_pane_rows(*app);
    let mut out: Vec<(SideRow, bool)> = Vec::new();
    let mut g = start;
    while g < end
        invariant
            start <= g <= end <= n,
            n == all.len(),
            rows == all@.map_values(|x: SideRow| side_view(x)),
            rows == selected_side_rows(*app),
            want == side_pane_rows(*app),
            (start as int, end as int) == window(n as int, app.diff_scroll as int, app.diff_visible_height as int),
            focused == (app.focus == Focus::Diff),
            out@.map_values(|x: (SideRow, bool)| (side_view(x.0), x.1)) == want.take(g - start),
        decreases end - g,
    {
        let item = (all[g].clone_row(), g - start == app.diff_cursor && focused);
        let ghost prev = out@.map_values(|x: (SideRow, bool)| (side_view(x.0), x.1));
        out.push(item);
        assert(out@.map_values(|x: (SideRow, bool)| (side_view(x.0), x.1)) =~= prev.push((side_view(item.0), item.1)));
        assert(rows[g as int] == side_view(all@[g as int]));
        assert(want.len() == end - start);
        assert(want[g - start] == (rows[g as int], g - start == app.diff_cursor && focused));
        assert(want.take(g + 1 - start) =~= want.take(g - start).push(want[g - start]));
        g = g + 1;
    }
    assert(want.take(end - start) =~= want);
    out
}

impl SideRow {
    /// A copy of the row.
    pub fn clone_row(&self) -> (r: SideRow)
        ensures
            side_view(r) == side_view(*self),
    {
        SideRow {
            left: self.left.clone(),
            right: self.right.clone(),
            left_type: self.left_type,
            right_type: self.right_type,
        }
    }
}

/// The number of side-by-side rows with a line on the left.
pub open spec fn left_count(rows: Seq<(Seq<char>, Seq<char>, Option<LineType>, Option<LineType>)>) -> nat
    decreases rows.len(),
{
    if rows.len() == 0 {
        0
    } else {
        left_count(rows.drop_last()) + if rows.last().2 is Some {
            1nat
        } else {
            0nat
        }
    }
}

/// The number of side-by-side rows with a line on the right.
pub open spec fn right_count(rows: Seq<(Seq<char>, Seq<char>, Option<LineType>, Option<LineType>)>) -> nat
    decreases rows.len(),
{
    if rows.len() == 0 {
        0
    } else {
        right_count(rows.drop_last()) + if rows.last().3 is Some {
            1nat
        } else {
            0nat
        }
    }
}

proof fn lemma_counts_concat(
    a: Seq<(Seq<char>, Seq<char>, Option<LineType>, Option<LineType>)>,
    b: Seq<(Seq<char>, Seq<char>, Option<LineType>, Option<LineType>)>,
)
    ensures
        left_count(a + b) == left_count(a) + left_count(b),
        right_count(a + b) == right_count(a) + right_count(b),
    decreases b.len(),
{
    if b.len() == 0 {
        assert(a + b =~= a);
    } else {
        lemma_counts_concat(a, b.drop_last());
        assert((a + b).drop_last() =~= a + b.drop_last());
    }
}

proof fn lemma_removed_rows_counts(p: Seq<Seq<char>>)
    ensures
        left_count(removed_rows(p)) == p.len(),
        right_count(removed_rows(p)) == 0,
    decreases p.len(),
{
    if p.len() > 0 {
        lemma_removed_rows_counts(p.drop_last());
        assert(removed_rows(p).drop_last() =~= removed_rows(p.drop_last()));
    }
}

proof fn lemma_side_fold_counts(ls: Seq<HunkLine>)
    ensures
        left_count(side_fold(ls).0) + side_fold(ls).1.len() == crate::app::tree::lines_of_type(ls, LineType::Removed)
            + crate::app::tree::lines_of_type(ls, LineType::Context),
        right_count(side_fold(ls).0) == crate::app::tree::lines_of_type(ls, LineType::Added)
            + crate::app::tree::lines_of_type(ls, LineType::Context),
    decreases ls.len(),
{
    if ls.len() > 0 {
        lemma_side_fold_counts(ls.drop_last());
        let st = side_fold(ls.drop_last());
        let l = ls.last();
        let c = l.content@;
        assert(ls.drop_last().push(l) =~= ls);
        match l.line_type {
            LineType::Context => {
                let row = seq![(c, c, Some(LineType::Context), Some(LineType::Context))];
                lemma_counts_concat(st.0 + removed_rows(st.1), row);
                lemma_counts_concat(st.0, removed_rows(st.1));
                lemma_removed_rows_counts(st.1);
                assert(row.drop_last() =~= Seq::<(Seq<char>, Seq<char>, Option<LineType>, Option<LineType>)>::empty());
                assert(left_count(Seq::<(Seq<char>, Seq<char>, Option<LineType>, Option<LineType>)>::empty()) == 0);
                assert(right_count(Seq::<(Seq<char>, Seq<char>, Option<LineType>, Option<LineType>)>::empty()) == 0);
                assert(row.last().2 is Some && row.last().3 is Some);
                assert(left_count(row) == 1);
                assert(right_count(row) == 1);
            },
            LineType::Added => {
                if st.1.len() > 0 {
                    let x = (st.1.last(), c, Some(LineType::Removed), Some(LineType::Added));
                    assert(st.0.push(x).drop_last() =~= st.0);
                } else {
                    let x = (Seq::<char>::empty(), c, None::<LineType>, Some(LineType::Added));
                    assert(st.0.push(x).drop_last() =~= st.0);
                }
            },
            _ => {},
        }
    }
}

/// No line is lost side by side: the rows with a line on the left are as
/// many as the removed and context lines of the hunks, and those with a
/// line on the right as many as the added and context lines.
pub proof fn law_side_rows_keep_lines(hs: Seq<Hunk>)
    ensures
        left_count(side_rows(hs)) == crate::app::tree::count_type(hs, LineType::Removed)
            + crate::app::tree::count_type(hs, LineType::Context),
        right_count(side_rows(hs)) == crate::app::tree::count_type(hs, LineType::Added)
            + crate::app::tree::count_type(hs, LineType::Context),
    decreases hs.len(),
{
    if hs.len() > 0 {
        law_side_rows_keep_lines(hs.drop_last());
        let st = side_fold(hs.last().lines@);
        lemma_side_fold_counts(hs.last().lines@);
        lemma_removed_rows_counts(st.1);
        lemma_counts_concat(side_rows(hs.drop_last()) + st.0, removed_rows(st.1));
        lemma_counts_concat(side_rows(hs.drop_last()), st.0);
    }
}

/// A removed row directly followed by an added row, neither matching the
/// search, is shown in the diff pane as its changed middle against that
/// added row, and the added row as its changed middle against the removed
/// row.
pub proof fn law_changed_pair_word_diffed(app: App, g: int)
    requires
        0 < g,
        g + 1 < app.diff_view().len(),
        app.diff_view()[g].1 == LineType::Removed,
        app.diff_view()[g + 1].1 == LineType::Added,
    ensures
        ({
            let rows = app.diff_view();
            let m = marker_source(app);
            &&& !(m is Some && regex_is_match(m->0, rows[g].0)) ==> pane_row_at(app, g).0 == word_diff_pieces(
                rows[g].0,
                rows[g + 1].0,
            )
            &&& !(m is Some && regex_is_match(m->0, rows[g + 1].0)) ==> pane_row_at(app, g + 1).0
                == word_diff_pieces(rows[g + 1].0, rows[g].0)
        }),
{
}

/// The left column of side-by-side rows, top to bottom: the text and kind
/// of each row that has a line on the left.
pub open spec fn left_col(rows: Seq<(Seq<char>, Seq<char>, Option<LineType>, Option<LineType>)>) -> Seq<(Seq<char>, LineType)>
    decreases rows.len(),
{
    if rows.len() == 0 {
        Seq::empty()
    } else {
        let p = left_col(rows.drop_last());
        match rows.last().2 {
            Some(t) => p.push((rows.last().0, t)),
            None => p,
        }
    }
}

/// The lines of the old side of a hunk: its removed and context lines, in
/// order, each with its kind.
pub open spec fn old_side(ls: Seq<HunkLine>) -> Seq<(Seq<char>, LineType)>
    decreases ls.len(),
{
    if ls.len() == 0 {
        Seq::empty()
    } else {
        let p = old_side(ls.drop_last());
        let l = ls.last();
        if l.line_type == LineType::Removed || l.line_type == LineType::Context {
            p.push((l.content@, l.line_type))
        } else {
            p
        }
    }
}

/// The old-side lines of the hunks `hs`, hunk after hunk.
pub open spec fn old_lines(hs: Seq<Hunk>) -> Seq<(Seq<char>, LineType)>
    decreases hs.len(),
{
    if hs.len() == 0 {
        Seq::empty()
    } else {
        old_lines(hs.drop_last()) + old_side(hs.last().lines@)
    }
}

/// Removed lines, each with its kind.
pub open spec fn as_removed(p: Seq<Seq<char>>) -> Seq<(Seq<char>, LineType)> {
    p.map_values(|x: Seq<char>| (x, LineType::Removed))
}

proof fn lemma_left_col_concat(
    a: Seq<(Seq<char>, Seq<char>, Option<LineType>, Option<LineType>)>,
    b: Seq<(Seq<char>, Seq<char>, Option<LineType>, Option<LineType>)>,
)
    ensures
        left_col(a + b) == left_col(a) + left_col(b),
    decreases b.len(),
{
    if b.len() == 0 {
        assert(a + b =~= a);
        assert(left_col(a) + left_col(b) =~= left_col(a));
    } else {
        lemma_left_col_concat(a, b.drop_last());
        assert((a + b).drop_last() =~= a + b.drop_last());
        assert((a + b).last() == b.last());
        match b.last().2 {
            Some(t) => {
                assert((left_col(a) + left_col(b.drop_last())).push((b.last().0, t)) =~= left_col(a) + left_col(
                    b.drop_last(),
                ).push((b.last().0, t)));
            },
            None => {},
        }
    }
}

proof fn lemma_left_col_removed(p: Seq<Seq<char>>)
    ensures
        left_col(removed_rows(p)) == as_removed(p),
    decreases p.len(),
{
    if p.len() == 0 {
        assert(left_col(removed_rows(p)) =~= as_removed(p));
    } else {
        lemma_left_col_removed(p.drop_last());
        assert(removed_rows(p).drop_last() =~= removed_rows(p.drop_last()));
        assert(as_removed(p) =~= as_removed(p.drop_last()).push((p.last(), LineType::Removed)));
    }
}

/// The left column of side-by-side rows agrees with the old-side lines
/// `o`: same kinds row by row, and the same text on every context row.
pub open spec fn left_agrees(l: Seq<(Seq<char>, LineType)>, o: Seq<(Seq<char>, LineType)>) -> bool {
    &&& l.len() == o.len()
    &&& forall|k: int| 0 <= k < o.len() ==> (#[trigger] l[k]).1 == o[k].1 && (o[k].1 == LineType::Context ==> l[k].0 == o[k].0)
}

/// Up to and including each context line, the left column holds the same
/// lines as the old side: removed lines stay between the context lines
/// around them.
pub open spec fn segments_agree(l: Seq<(Seq<char>, LineType)>, o: Seq<(Seq<char>, LineType)>) -> bool {
    forall|k: int|
        0 <= k < o.len() && (#[trigger] o[k]).1 == LineType::Context ==> l.take(k + 1).to_multiset() == o.take(
            k + 1,
        ).to_multiset()
}

proof fn lemma_side_fold_left(ls: Seq<HunkLine>)
    ensures
        ({
            let st = side_fold(ls);
            let l = left_col(st.0);
            let o = old_side(ls);
            &&& l.len() + st.1.len() == o.len()
            &&& forall|k: int| 0 <= k < l.len() ==> (#[trigger] l[k]).1 == o[k].1 && (o[k].1 == LineType::Context ==> l[k].0 == o[k].0)
            &&& forall|k: int| l.len() <= k < o.len() ==> (#[trigger] o[k]).1 == LineType::Removed
            &&& (l + as_removed(st.1)).to_multiset() == o.to_multiset()
            &&& forall|k: int|
                0 <= k < l.len() && (#[trigger] o[k]).1 == LineType::Context ==> l.take(k + 1).to_multiset()
                    == o.take(k + 1).to_multiset()
        }),
    decreases ls.len(),
{
    broadcast use vstd::multiset::group_multiset_axioms;
    if ls.len() == 0 {
        assert(left_col(side_fold(ls).0) =~= Seq::<(Seq<char>, LineType)>::empty());
        assert(left_col(side_fold(ls).0) + as_removed(side_fold(ls).1) =~= old_side(ls));
    } else {
        lemma_side_fold_left(ls.drop_last());
        let st = side_fold(ls.drop_last());
        let l0 = left_col(st.0);
        let o0 = old_side(ls.drop_last());
        let p0 = as_removed(st.1);
        let x = ls.last();
        let c = x.content@;
        let st1 = side_fold(ls);
        let l1 = left_col(st1.0);
        let o1 = old_side(ls);
        (l0 + p0).to_multiset_ensures();
        o0.to_multiset_ensures();
        vstd::seq_lib::lemma_multiset_commutative(l0, p0);
        match x.line_type {
            LineType::Context => {
                let row = seq![(c, c, Some(LineType::Context), Some(LineType::Context))];
                lemma_left_col_concat(st.0 + removed_rows(st.1), row);
                lemma_left_col_concat(st.0, removed_rows(st.1));
                lemma_left_col_removed(st.1);
                assert(row.drop_last() =~= Seq::<(Seq<char>, Seq<char>, Option<LineType>, Option<LineType>)>::empty());
                assert(left_col(row.drop_last()) =~= Seq::<(Seq<char>, LineType)>::empty());
                assert(row.last() == (c, c, Some(LineType::Context), Some(LineType::Context)));
                assert(left_col(row) =~= seq![(c, LineType::Context)]);
                assert(l1 =~= (l0 + p0).push((c, LineType::Context)));
                assert(o1 =~= o0.push((c, LineType::Context)));
                assert(as_removed(st1.1) =~= Seq::<(Seq<char>, LineType)>::empty());
                assert(l1 + as_removed(st1.1) =~= l1);
                assert forall|k: int| 0 <= k < l1.len() implies (#[trigger] l1[k]).1 == o1[k].1 && (o1[k].1 == LineType::Context
                    ==> l1[k].0 == o1[k].0) by {
                    if k < l0.len() {
                        assert(l1[k] == l0[k]);
                        assert(o1[k] == o0[k]);
                    } else if k < l0.len() + p0.len() {
                        assert(l1[k] == p0[k - l0.len()]);
                        assert(o1[k] == o0[k]);
                        assert(o0[k].1 == LineType::Removed);
                    }
                }
                assert forall|k: int| 0 <= k < l1.len() && (#[trigger] o1[k]).1 == LineType::Context implies l1.take(k + 1).to_multiset()
                    == o1.take(k + 1).to_multiset() by {
                    if k < l0.len() {
                        assert(o1[k] == o0[k]);
                        assert(l1.take(k + 1) =~= l0.take(k + 1));
                        assert(o1.take(k + 1) =~= o0.take(k + 1));
                    } else if k < l0.len() + p0.len() {
                        assert(o1[k] == o0[k]);
                        assert(o0[k].1 == LineType::Removed);
                    } else {
                        assert(l1.take(k + 1) =~= l1);
                        assert(o1.take(k + 1) =~= o1);
                    }
                }
            },
            LineType::Removed => {
                assert(st1 == (st.0, st.1.push(c)));
                assert(as_removed(st1.1) =~= p0.push((c, LineType::Removed)));
                assert(l1 + as_removed(st1.1) =~= (l0 + p0).push((c, LineType::Removed)));
                assert(o1 =~= o0.push((c, LineType::Removed)));
                assert forall|k: int| 0 <= k < l1.len() implies (#[trigger] l1[k]).1 == o1[k].1 && (o1[k].1 == LineType::Context
                    ==> l1[k].0 == o1[k].0) by {
                    assert(o1[k] == o0[k]);
                }
                assert forall|k: int| l1.len() <= k < o1.len() implies (#[trigger] o1[k]).1 == LineType::Removed by {
                    if k < o0.len() {
                        assert(o1[k] == o0[k]);
                    }
                }
                assert forall|k: int| 0 <= k < l1.len() && (#[trigger] o1[k]).1 == LineType::Context implies l1.take(k + 1).to_multiset()
                    == o1.take(k + 1).to_multiset() by {
                    assert(o1[k] == o0[k]);
                    assert(o1.take(k + 1) =~= o0.take(k + 1));
                }
            },
            LineType::Added => {
                assert(o1 == o0);
                if st.1.len() > 0 {
                    let pl = st.1.last();
                    let r = (pl, c, Some(LineType::Removed), Some(LineType::Added));
                    assert(st.0.push(r).drop_last() =~= st.0);
                    assert(l1 == l0.push((pl, LineType::Removed)));
                    let p1 = as_removed(st.1.drop_last());
                    assert(as_removed(st1.1) == p1);
                    assert(p0 =~= p1.push((pl, LineType::Removed)));
                    vstd::seq_lib::lemma_multiset_commutative(l1, p1);
                    vstd::seq_lib::lemma_multiset_commutative(l0, p0);
                    l0.to_multiset_ensures();
                    p1.to_multiset_ensures();
                    assert((l1 + p1).to_multiset() =~= (l0 + p0).to_multiset());
                    assert forall|k: int| 0 <= k < l1.len() implies (#[trigger] l1[k]).1 == o1[k].1 && (o1[k].1 == LineType::Context
                        ==> l1[k].0 == o1[k].0) by {
                        if k < l0.len() {
                            assert(l1[k] == l0[k]);
                        } else {
                            assert(o0[k].1 == LineType::Removed);
                        }
                    }
                    assert forall|k: int| 0 <= k < l1.len() && (#[trigger] o1[k]).1 == LineType::Context implies l1.take(k + 1).to_multiset()
                        == o1.take(k + 1).to_multiset() by {
                        if k < l0.len() {
                            assert(l1.take(k + 1) =~= l0.take(k + 1));
                        } else {
                            assert(o0[k].1 == LineType::Removed);
                        }
                    }
                } else {
                    let r = (Seq::<char>::empty(), c, None::<LineType>, Some(LineType::Added));
                    assert(st.0.push(r).drop_last() =~= st.0);
                    assert(l1 == l0);
                }
            },
            _ => {
                assert(st1 == st);
                assert(o1 == o0);
            },
        }
    }
}

/// Side by side, the old lines keep their place: the left column, read top
/// to bottom, has the kinds of the hunks' removed and context lines in
/// their order, each context line's text at its own place, and holds
/// exactly those lines (removed lines only move among the removed lines
/// between two context lines).
pub proof fn law_side_rows_left_column(hs: Seq<Hunk>)
    ensures
        left_agrees(left_col(side_rows(hs)), old_lines(hs)),
        left_col(side_rows(hs)).to_multiset() == old_lines(hs).to_multiset(),
        segments_agree(left_col(side_rows(hs)), old_lines(hs)),
    decreases hs.len(),
{
    broadcast use vstd::multiset::group_multiset_axioms;
    if hs.len() == 0 {
        assert(left_col(side_rows(hs)) =~= old_lines(hs));
    } else {
        law_side_rows_left_column(hs.drop_last());
        let ls = hs.last().lines@;
        let st = side_fold(ls);
        lemma_side_fold_left(ls);
        lemma_left_col_concat(side_rows(hs.drop_last()) + st.0, removed_rows(st.1));
        lemma_left_col_concat(side_rows(hs.drop_last()), st.0);
        lemma_left_col_removed(st.1);
        let a = left_col(side_rows(hs.drop_last()));
        let b = left_col(st.0) + as_removed(st.1);
        let oa = old_lines(hs.drop_last());
        let ob = old_side(ls);
        assert(left_col(side_rows(hs)) =~= a + b);
        assert(old_lines(hs) == oa + ob);
        vstd::seq_lib::lemma_multiset_commutative(a, b);
        vstd::seq_lib::lemma_multiset_commutative(oa, ob);
        let l = left_col(st.0);
        assert forall|k: int| 0 <= k < ob.len() implies (#[trigger] b[k]).1 == ob[k].1 && (ob[k].1 == LineType::Context
            ==> b[k].0 == ob[k].0) by {
            if k < l.len() {
                assert(b[k] == l[k]);
            } else {
                assert(b[k] == as_removed(st.1)[k - l.len()]);
                assert(ob[k].1 == LineType::Removed);
            }
        }
        assert forall|k: int| 0 <= k < ob.len() && (#[trigger] ob[k]).1 == LineType::Context implies b.take(k + 1).to_multiset()
            == ob.take(k + 1).to_multiset() by {
            if k < l.len() {
                assert(b.take(k + 1) =~= l.take(k + 1));
            } else {
                assert(ob[k].1 == LineType::Removed);
            }
        }
        assert forall|k: int| 0 <= k < (oa + ob).len() && (#[trigger] (oa + ob)[k]).1 == LineType::Context implies (a
            + b).take(k + 1).to_multiset() == (oa + ob).take(k + 1).to_multiset() by {
            if k < a.len() {
                assert((oa + ob)[k] == oa[k]);
                assert((a + b).take(k + 1) =~= a.take(k + 1));
                assert((oa + ob).take(k + 1) =~= oa.take(k + 1));
            } else {
                let i = k - a.len();
                assert((oa + ob)[k] == ob[i]);
                assert((a + b).take(k + 1) =~= a + b.take(i + 1));
                assert((oa + ob).take(k + 1) =~= oa + ob.take(i + 1));
                vstd::seq_lib::lemma_multiset_commutative(a, b.take(i + 1));
                vstd::seq_lib::lemma_multiset_commutative(oa, ob.take(i + 1));
            }
        }
        assert forall|k: int| 0 <= k < (oa + ob).len() implies (#[trigger] (a + b)[k]).1 == (oa + ob)[k].1 && ((oa
            + ob)[k].1 == LineType::Context ==> (a + b)[k].0 == (oa + ob)[k].0) by {
            if k < a.len() {
                assert((a + b)[k] == a[k]);
                assert((oa + ob)[k] == oa[k]);
            } else {
                assert((a + b)[k] == b[k - a.len()]);
                assert((oa + ob)[k] == ob[k - oa.len()]);
            }
        }
    }
}

} // verus!
