//! Parsers of git's listings (status, name-status, branches, log), the reading
//! of `git diff` output, and the command lines the library asks git to run.

use vstd::prelude::*;
use crate::text::{
    chars_of, contains, contains_exec, decimal, find, find_exec, is_whitespace,
    is_whitespace_exec, line_spans, lines, push_decimal, span_text, spans_give, spans_in,
    split_on, split_spans, string_of_range, trim, trim_span,
};
use crate::order::{SortKey, lex_le, lex_lt, lemma_lex_transitive, lemma_lex_trichotomy, str_lt, sorted_by_key, stable_sort};
use super::{FileChange, GitError, Hunk, HunkLine, LineType, hunks_view, strings_view};
use super::parse::{parse_diff, parse_hunks};

verus! {

// ---------------------------------------------------------------------------
// Entries of a status listing
// ---------------------------------------------------------------------------

/// One file of a status listing, before its diff is known.
#[derive(Debug, Clone)]
pub struct StatusEntry {
    pub path: String,
    pub status: char,
    pub staged_status: Option<char>,
    pub unstaged_status: Option<char>,
}

impl View for StatusEntry {
    type V = (Seq<char>, char, Option<char>, Option<char>);

    open spec fn view(&self) -> (Seq<char>, char, Option<char>, Option<char>) {
        (self.path@, self.status, self.staged_status, self.unstaged_status)
    }
}

/// The views of a sequence of entries.
pub open spec fn entries_view(es: Seq<StatusEntry>) -> Seq<(Seq<char>, char, Option<char>, Option<char>)> {
    es.map_values(|e: StatusEntry| e@)
}

// ---------------------------------------------------------------------------
// `git status --porcelain`
// ---------------------------------------------------------------------------

/// Number of bytes of `c` in UTF-8.
pub open spec fn utf8_width(c: char) -> nat {
    let u = c as u32;
    if u < 0x80 {
        1
    } else if u < 0x800 {
        2
    } else if u < 0x10000 {
        3
    } else {
        4
    }
}

/// Number of bytes of `s` in UTF-8 (what `str::len` gives).
pub open spec fn utf8_len(s: Seq<char>) -> nat
    decreases s.len(),
{
    if s.len() == 0 {
        0
    } else {
        utf8_len(s.drop_last()) + utf8_width(s.last())
    }
}

proof fn lemma_utf8_len_at_least(s: Seq<char>)
    ensures
        utf8_len(s) >= s.len(),
    decreases s.len(),
{
    if s.len() > 0 {
        lemma_utf8_len_at_least(s.drop_last());
    }
}

pub(crate) fn utf8_width_exec(c: char) -> (w: usize)
    ensures
        w == utf8_width(c),
{
    let u = c as u32;
    if u < 0x80 {
        1
    } else if u < 0x800 {
        2
    } else if u < 0x10000 {
        3
    } else {
        4
    }
}

/// The number of characters that make up the first three bytes of `l`, when
/// byte 3 of `l` falls on a character boundary.
pub open spec fn byte3_cut(l: Seq<char>) -> Option<int> {
    if l.len() >= 1 && utf8_width(l[0]) == 3 {
        Some(1)
    } else if l.len() >= 2 && utf8_width(l[0]) + utf8_width(l[1]) == 3 {
        Some(2)
    } else if l.len() >= 3 && utf8_width(l[0]) + utf8_width(l[1]) + utf8_width(l[2]) == 3 {
        Some(3)
    } else {
        None
    }
}

/// The piece of `s` after the first `sep` and before the next one, as
/// `s.split(sep).nth(1)` gives it; all of `s` when `sep` does not occur.
pub open spec fn second_piece(s: Seq<char>, sep: Seq<char>) -> Seq<char> {
    match find(s, sep) {
        None => s,
        Some(i) => {
            let rest = s.skip(i + sep.len());
            match find(rest, sep) {
                None => rest,
                Some(j) => rest.take(j),
            }
        },
    }
}

/// The status of a porcelain line: the staged code unless it is blank or
/// `?`, else the unstaged code unless that is blank.
pub open spec fn porcelain_status(staged: char, unstaged: char) -> Option<char> {
    if staged != ' ' && staged != '?' {
        Some(staged)
    } else if unstaged != ' ' {
        Some(unstaged)
    } else {
        None
    }
}

/// The entry that one line of `git status --porcelain` gives, if any: lines
/// under three bytes and lines with two blank codes give none; the path
/// starts at byte 3, and for renames and copies it is the new name.
pub open spec fn porcelain_entry(l: Seq<char>) -> Option<(Seq<char>, char, Option<char>, Option<char>)> {
    if utf8_len(l) < 3 {
        None
    } else {
        let staged = l[0];
        let unstaged = if l.len() >= 2 {
            l[1]
        } else {
            ' '
        };
        let part = l.skip(byte3_cut(l)->0);
        match porcelain_status(staged, unstaged) {
            None => None,
            Some(st) => Some(
                (
                    if st == 'R' || st == 'C' {
                        second_piece(part, " -> "@)
                    } else {
                        part
                    },
                    st,
                    if staged != ' ' && staged != '?' {
                        Some(staged)
                    } else {
                        None
                    },
                    if unstaged != ' ' {
                        Some(unstaged)
                    } else {
                        None
                    },
                ),
            ),
        }
    }
}

/// The entries of the porcelain lines `ls`, in order.
pub open spec fn porcelain_entries(ls: Seq<Seq<char>>) -> Seq<(Seq<char>, char, Option<char>, Option<char>)>
    decreases ls.len(),
{
    if ls.len() == 0 {
        Seq::empty()
    } else {
        let prev = porcelain_entries(ls.drop_last());
        match porcelain_entry(ls.last()) {
            Some(e) => prev.push(e),
            None => prev,
        }
    }
}

/// Every line of at least three bytes can be cut at byte 3 (slicing there
/// panics otherwise).
pub open spec fn porcelain_sliceable(s: Seq<char>) -> bool {
    forall|k: int|
        0 <= k < lines(s).len() ==> utf8_len(#[trigger] lines(s)[k]) >= 3 ==> byte3_cut(
            lines(s)[k],
        ) is Some
}

/// `second_piece` on `v[a..b]`, as a span of `v`.
fn second_piece_span(v: &[char], a: usize, b: usize, sep: &[char]) -> (r: (usize, usize))
    requires
        a <= b <= v.len(),
    ensures
        a <= r.0 <= r.1 <= b,
        v@.subrange(r.0 as int, r.1 as int) == second_piece(v@.subrange(a as int, b as int), sep@),
{
    let ghost s = v@.subrange(a as int, b as int);
    let part: Vec<char> = slice_range(v, a, b);
    match find_exec(part.as_slice(), sep, 0) {
        None => {
            assert(v@.subrange(a as int, b as int) == s);
            (a, b)
        },
        Some(i) => {
            proof {
                crate::text::lemma_find_from(s, sep@, 0);
            }
            let start = i + sep.len();
            let ghost rest = s.skip(start as int);
            let restv: Vec<char> = slice_range(part.as_slice(), start, part.len());
            assert(restv@ =~= rest);
            match find_exec(restv.as_slice(), sep, 0) {
                None => {
                    assert(v@.subrange(a + start, b as int) =~= rest);
                    (a + start, b)
                },
                Some(j) => {
                    proof {
                        crate::text::lemma_find_from(rest, sep@, 0);
                    }
                    assert(v@.subrange(a + start, a + start + j) =~= rest.take(j as int));
                    (a + start, a + start + j)
                },
            }
        },
    }
}

/// A copy of `v[a..b]`.
pub fn slice_range(v: &[char], a: usize, b: usize) -> (r: Vec<char>)
    requires
        a <= b <= v.len(),
    ensures
        r@ == v@.subrange(a as int, b as int),
{
    let mut r: Vec<char> = Vec::new();
    let mut i = a;
    while i < b
        invariant
            a <= i <= b <= v.len(),
            r@ == v@.subrange(a as int, i as int),
        decreases b - i,
    {
        r.push(v[i]);
        i = i + 1;
        assert(r@ =~= v@.subrange(a as int, i as int));
    }
    r
}

/// The entry of the porcelain line `v[a..b]`.
fn porcelain_line(v: &[char], a: usize, b: usize) -> (r: Option<StatusEntry>)
    requires
        a <= b <= v.len(),
        utf8_len(v@.subrange(a as int, b as int)) >= 3 ==> byte3_cut(v@.subrange(a as int, b as int)) is Some,
    ensures
        match r {
            Some(e) => porcelain_entry(v@.subrange(a as int, b as int)) == Some(e@),
            None => porcelain_entry(v@.subrange(a as int, b as int)) is None,
        },
{
    let ghost l = v@.subrange(a as int, b as int);
    let n = b - a;
    // Is the line at least three bytes long?
    proof {
        reveal_with_fuel(utf8_len, 3);
        lemma_utf8_len_at_least(l);
        if n >= 1 {
            assert(l.drop_last().len() == n - 1);
        }
        if n == 1 {
            assert(l.drop_last() =~= Seq::<char>::empty());
            assert(utf8_len(l) == utf8_width(l[0]));
        }
        if n == 2 {
            assert(l.drop_last().drop_last() =~= Seq::<char>::empty());
            assert(l.drop_last().last() == l[0]);
            assert(utf8_len(l.drop_last()) == utf8_width(l[0]));
            assert(utf8_len(l) == utf8_width(l[0]) + utf8_width(l[1]));
        }
    }
    let long_enough = if n >= 3 {
        true
    } else if n == 2 {
        utf8_width_exec(v[a]) + utf8_width_exec(v[a + 1]) >= 3
    } else if n == 1 {
        utf8_width_exec(v[a]) >= 3
    } else {
        false
    };
    if !long_enough {
        return None;
    }
    assert(l[0] == v@[a as int]);
    assert(n >= 2 ==> l[1] == v@[a + 1]);
    assert(n >= 3 ==> l[2] == v@[a + 2]);
    let staged = v[a];
    let unstaged = if n >= 2 {
        v[a + 1]
    } else {
        ' '
    };
    let w0 = utf8_width_exec(v[a]);
    let cut: usize = if w0 == 3 {
        1
    } else if n >= 2 && w0 + utf8_width_exec(v[a + 1]) == 3 {
        2
    } else {
        3
    };
    assert(byte3_cut(l) == Some(cut as int));
    let status = if staged != ' ' && staged != '?' {
        staged
    } else if unstaged != ' ' {
        unstaged
    } else {
        return None;
    };
    let sep = chars_of(" -> ");
    let (pa, pb) = if status == 'R' || status == 'C' {
        let sp = second_piece_span(v, a + cut, b, sep.as_slice());
        assert(v@.subrange((a + cut) as int, b as int) =~= l.skip(cut as int));
        sp
    } else {
        assert(v@.subrange((a + cut) as int, b as int) =~= l.skip(cut as int));
        (a + cut, b)
    };
    let path = string_of_range(v, pa, pb);
    let staged_status = if staged != ' ' && staged != '?' {
        Some(staged)
    } else {
        None
    };
    let unstaged_status = if unstaged != ' ' {
        Some(unstaged)
    } else {
        None
    };
    Some(StatusEntry { path, status, staged_status, unstaged_status })
}

/// Parses the output of `git status --porcelain` into entries, in the order
/// of its lines.
pub fn parse_porcelain_status(stdout: &str) -> (r: Vec<StatusEntry>)
    requires
        porcelain_sliceable(stdout@),
    ensures
        entries_view(r@) == porcelain_entries(lines(stdout@)),
{
    let v = chars_of(stdout);
    let spans = line_spans(v.as_slice());
    let ghost ls = lines(v@);
    let mut out: Vec<StatusEntry> = Vec::new();
    let mut k: usize = 0;
    assert(ls.take(0) =~= Seq::<Seq<char>>::empty());
    assert(entries_view(out@) =~= Seq::empty());
    while k < spans.len()
        invariant
            k <= spans.len(),
            spans_give(v@, spans@, ls),
            porcelain_sliceable(v@),
            ls == lines(v@),
            entries_view(out@) == porcelain_entries(ls.take(k as int)),
        decreases spans.len() - k,
    {
        let (a, b) = spans[k];
        proof {
            assert(spans_in(v@, spans@) ==> spans@[k as int].0 <= spans@[k as int].1 <= v@.len());
            assert(spans@.map_values(|sp: (usize, usize)| span_text(v@, sp))[k as int] == ls[k as int]);
            assert(ls.take(k + 1).drop_last() =~= ls.take(k as int));
            assert(ls.take(k + 1).last() == ls[k as int]);
            assert(utf8_len(lines(v@)[k as int]) >= 3 ==> byte3_cut(lines(v@)[k as int]) is Some);
        }
        match porcelain_line(v.as_slice(), a, b) {
            Some(e) => {
                let ghost prev = entries_view(out@);
                out.push(e);
                assert(entries_view(out@) =~= prev.push(e@));
            },
            None => {},
        }
        k = k + 1;
    }
    assert(ls.take(spans.len() as int) =~= ls);
    out
}

/// Whether the porcelain line `v[a..b]` can be cut at byte 3 when it is at
/// least three bytes long.
fn line_sliceable(v: &[char], a: usize, b: usize) -> (r: bool)
    requires
        a <= b <= v.len(),
    ensures
        r == (utf8_len(v@.subrange(a as int, b as int)) >= 3 ==> byte3_cut(v@.subrange(a as int, b as int)) is Some),
{
    let ghost l = v@.subrange(a as int, b as int);
    let n = b - a;
    proof {
        reveal_with_fuel(utf8_len, 3);
        lemma_utf8_len_at_least(l);
        if n >= 1 {
            assert(l.drop_last().len() == n - 1);
        }
        if n == 1 {
            assert(l.drop_last() =~= Seq::<char>::empty());
            assert(utf8_len(l) == utf8_width(l[0]));
        }
        if n == 2 {
            assert(l.drop_last().drop_last() =~= Seq::<char>::empty());
            assert(l.drop_last().last() == l[0]);
            assert(utf8_len(l.drop_last()) == utf8_width(l[0]));
            assert(utf8_len(l) == utf8_width(l[0]) + utf8_width(l[1]));
        }
    }
    let long_enough = if n >= 3 {
        true
    } else if n == 2 {
        utf8_width_exec(v[a]) + utf8_width_exec(v[a + 1]) >= 3
    } else if n == 1 {
        utf8_width_exec(v[a]) >= 3
    } else {
        false
    };
    if !long_enough {
        return true;
    }
    assert(l[0] == v@[a as int]);
    assert(n >= 2 ==> l[1] == v@[a + 1]);
    assert(n >= 3 ==> l[2] == v@[a + 2]);
    let w0 = utf8_width_exec(v[a]);
    if w0 == 3 {
        return true;
    }
    if n < 2 {
        return false;
    }
    let w1 = utf8_width_exec(v[a + 1]);
    if w0 + w1 == 3 {
        return true;
    }
    if n < 3 {
        return false;
    }
    let w2 = utf8_width_exec(v[a + 2]);
    w0 + w1 + w2 == 3
}

/// Whether every porcelain line of `stdout` can be cut at byte 3 (see
/// `porcelain_sliceable`).
pub fn porcelain_sliceable_check(stdout: &str) -> (r: bool)
    ensures
        r == porcelain_sliceable(stdout@),
{
    let v = chars_of(stdout);
    let spans = line_spans(v.as_slice());
    let ghost ls = lines(v@);
    let mut k: usize = 0;
    while k < spans.len()
        invariant
            k <= spans.len(),
            spans_give(v@, spans@, ls),
            ls == lines(v@),
            v@ == stdout@,
            forall|j: int|
                0 <= j < k ==> utf8_len(#[trigger] ls[j]) >= 3 ==> byte3_cut(ls[j]) is Some,
        decreases spans.len() - k,
    {
        let (a, b) = spans[k];
        proof {
            assert(spans_in(v@, spans@) ==> spans@[k as int].0 <= spans@[k as int].1 <= v@.len());
            assert(spans@.map_values(|sp: (usize, usize)| span_text(v@, sp))[k as int] == ls[k as int]);
        }
        if !line_sliceable(v.as_slice(), a, b) {
            assert(!porcelain_sliceable(stdout@)) by {
                assert(utf8_len(lines(stdout@)[k as int]) >= 3);
            }
            return false;
        }
        k = k + 1;
    }
    true
}

// ---------------------------------------------------------------------------
// `git diff --name-status` and `git diff-tree --name-status`
// ---------------------------------------------------------------------------

/// The entry that one name-status line gives, if any: the status is the
/// first character of the first tab-separated field (blank when there is
/// none); renames and copies with three fields name their new path in the
/// third field, other lines in the second; empty lines and lines with a
/// single field give none.
pub open spec fn name_status_entry(l: Seq<char>) -> Option<(Seq<char>, char, Option<char>, Option<char>)> {
    if l.len() == 0 {
        None
    } else {
        let parts = split_on(l, '\t');
        let st = if parts[0].len() > 0 {
            parts[0][0]
        } else {
            ' '
        };
        if (st == 'R' || st == 'C') && parts.len() >= 3 {
            Some((parts[2], st, None, None))
        } else if parts.len() >= 2 {
            Some((parts[1], st, None, None))
        } else {
            None
        }
    }
}

/// The entries of the name-status lines `ls`, in order.
pub open spec fn name_status_entries(ls: Seq<Seq<char>>) -> Seq<(Seq<char>, char, Option<char>, Option<char>)>
    decreases ls.len(),
{
    if ls.len() == 0 {
        Seq::empty()
    } else {
        let prev = name_status_entries(ls.drop_last());
        match name_status_entry(ls.last()) {
            Some(e) => prev.push(e),
            None => prev,
        }
    }
}

fn name_status_line(v: &[char], a: usize, b: usize) -> (r: Option<StatusEntry>)
    requires
        a <= b <= v.len(),
    ensures
        match r {
            Some(e) => name_status_entry(v@.subrange(a as int, b as int)) == Some(e@),
            None => name_status_entry(v@.subrange(a as int, b as int)) is None,
        },
{
    if a == b {
        return None;
    }
    let ghost l = v@.subrange(a as int, b as int);
    let lv = slice_range(v, a, b);
    let parts = split_spans(lv.as_slice(), '\t');
    let ghost ps = split_on(l, '\t');
    proof {
        crate::text::lemma_split_on_nonempty(l, '\t');
    }
    assert(parts@.len() == ps.len());
    let (p0a, p0b) = parts[0];
    assert(spans_in(lv@, parts@) ==> parts@[0].0 <= parts@[0].1 <= lv@.len());
    assert(parts@.map_values(|sp: (usize, usize)| span_text(lv@, sp))[0] == ps[0]);
    let st = if p0a < p0b {
        lv[p0a]
    } else {
        ' '
    };
    assert(ps[0].len() > 0 ==> ps[0][0] == lv@[p0a as int]);
    let idx: usize = if (st == 'R' || st == 'C') && parts.len() >= 3 {
        2
    } else if parts.len() >= 2 {
        1
    } else {
        return None;
    };
    let (pa, pb) = parts[idx];
    assert(spans_in(lv@, parts@) ==> parts@[idx as int].0 <= parts@[idx as int].1 <= lv@.len());
    assert(parts@.map_values(|sp: (usize, usize)| span_text(lv@, sp))[idx as int] == ps[idx as int]);
    let path = string_of_range(lv.as_slice(), pa, pb);
    Some(StatusEntry { path, status: st, staged_status: None, unstaged_status: None })
}

/// Parses a name-status listing into entries, in the order of its lines.
pub fn parse_name_status(stdout: &str) -> (r: Vec<StatusEntry>)
    ensures
        entries_view(r@) == name_status_entries(lines(stdout@)),
{
    let v = chars_of(stdout);
    let spans = line_spans(v.as_slice());
    let ghost ls = lines(v@);
    let mut out: Vec<StatusEntry> = Vec::new();
    let mut k: usize = 0;
    assert(ls.take(0) =~= Seq::<Seq<char>>::empty());
    assert(entries_view(out@) =~= Seq::empty());
    while k < spans.len()
        invariant
            k <= spans.len(),
            spans_give(v@, spans@, ls),
            entries_view(out@) == name_status_entries(ls.take(k as int)),
        decreases spans.len() - k,
    {
        let (a, b) = spans[k];
        proof {
            assert(spans_in(v@, spans@) ==> spans@[k as int].0 <= spans@[k as int].1 <= v@.len());
            assert(spans@.map_values(|sp: (usize, usize)| span_text(v@, sp))[k as int] == ls[k as int]);
            assert(ls.take(k + 1).drop_last() =~= ls.take(k as int));
            assert(ls.take(k + 1).last() == ls[k as int]);
        }
        match name_status_line(v.as_slice(), a, b) {
            Some(e) => {
                let ghost prev = entries_view(out@);
                out.push(e);
                assert(entries_view(out@) =~= prev.push(e@));
            },
            None => {},
        }
        k = k + 1;
    }
    assert(ls.take(spans.len() as int) =~= ls);
    out
}

// ---------------------------------------------------------------------------
// Assembling the file list
// ---------------------------------------------------------------------------

impl SortKey for FileChange {
    open spec fn key_le(self, other: FileChange) -> bool {
        lex_le(self.path@, other.path@)
    }

    proof fn key_le_total(a: FileChange, b: FileChange) {
        lemma_lex_trichotomy(a.path@, b.path@);
    }

    proof fn key_le_transitive(a: FileChange, b: FileChange, c: FileChange) {
        lemma_lex_trichotomy(a.path@, b.path@);
        lemma_lex_trichotomy(b.path@, c.path@);
        lemma_lex_trichotomy(a.path@, c.path@);
        if lex_lt(c.path@, a.path@) {
            if a.path@ == b.path@ {
            } else {
                lemma_lex_transitive(c.path@, a.path@, b.path@);
            }
        }
    }

    fn le(&self, other: &FileChange) -> (r: bool) {
        !str_lt(other.path.as_str(), self.path.as_str())
    }
}

/// The file for entry `e` with diff `d`.
pub open spec fn file_of(e: StatusEntry, d: (Vec<Hunk>, bool)) -> FileChange {
    FileChange {
        path: e.path,
        status: e.status,
        staged_status: e.staged_status,
        unstaged_status: e.unstaged_status,
        hunks: d.0,
        is_binary: d.1,
    }
}

/// The files of `es` paired with the diffs `ds`, position by position.
pub open spec fn zip_files(es: Seq<StatusEntry>, ds: Seq<(Vec<Hunk>, bool)>) -> Seq<FileChange> {
    Seq::new(es.len(), |i: int| file_of(es[i], ds[i]))
}

/// Pairs each entry with its diff and sorts the files stably by path.
pub fn files_from_entries(entries: Vec<StatusEntry>, diffs: Vec<(Vec<Hunk>, bool)>) -> (r: Vec<FileChange>)
    requires
        entries.len() == diffs.len(),
    ensures
        r@ == sorted_by_key(zip_files(entries@, diffs@)),
{
    let ghost want = zip_files(entries@, diffs@);
    let ghost es0 = entries@;
    let ghost ds0 = diffs@;
    let mut es = entries;
    let mut ds = diffs;
    let mut files: Vec<FileChange> = Vec::new();
    let ghost mut i: int = 0;
    while es.len() > 0
        invariant
            0 <= i <= es0.len(),
            es0.len() == ds0.len(),
            es@ == es0.skip(i),
            ds@ == ds0.skip(i),
            files@ == want.take(i),
            want == zip_files(es0, ds0),
        decreases es.len(),
    {
        let e = es.remove(0);
        let d = ds.remove(0);
        let f = FileChange {
            path: e.path,
            status: e.status,
            staged_status: e.staged_status,
            unstaged_status: e.unstaged_status,
            hunks: d.0,
            is_binary: d.1,
        };
        files.push(f);
        proof {
            assert(files@ =~= want.take(i + 1));
            i = i + 1;
        }
    }
    assert(want.take(es0.len() as int) =~= want);
    stable_sort(files)
}

// ---------------------------------------------------------------------------
// Branches and commits
// ---------------------------------------------------------------------------

/// The non-empty lines of `ls`, in order.
pub open spec fn nonempty_lines(ls: Seq<Seq<char>>) -> Seq<Seq<char>>
    decreases ls.len(),
{
    if ls.len() == 0 {
        Seq::empty()
    } else if ls.last().len() == 0 {
        nonempty_lines(ls.drop_last())
    } else {
        nonempty_lines(ls.drop_last()).push(ls.last())
    }
}

/// The first index of `x` in `s`.
pub open spec fn first_index(s: Seq<Seq<char>>, x: Seq<char>) -> Option<int>
    decreases s.len(),
{
    if s.len() == 0 {
        None
    } else if s[0] == x {
        Some(0)
    } else {
        match first_index(s.drop_first(), x) {
            Some(i) => Some(i + 1),
            None => None,
        }
    }
}

/// The branch list: the non-empty lines of the listing, with the current
/// branch (the trimmed `current` output) moved to the front when it is listed.
pub open spec fn branch_order(listing: Seq<char>, current: Option<Seq<char>>) -> Seq<Seq<char>> {
    let bs = nonempty_lines(lines(listing));
    match current {
        None => bs,
        Some(c) => match first_index(bs, trim(c)) {
            None => bs,
            Some(p) => seq![bs[p]] + bs.remove(p),
        },
    }
}

/// Orders branch names as the branch selection shows them. `current` is the
/// output of `git branch --show-current`, if that command ran.
pub fn order_branches(listing: &str, current: Option<&str>) -> (r: Vec<String>)
    ensures
        strings_view(r@) == branch_order(
            listing@,
            match current {
                Some(c) => Some(c@),
                None => None,
            },
        ),
{
    let v = chars_of(listing);
    let spans = line_spans(v.as_slice());
    let ghost ls = lines(v@);
    let mut bs: Vec<String> = Vec::new();
    let mut k: usize = 0;
    assert(ls.take(0) =~= Seq::<Seq<char>>::empty());
    assert(strings_view(bs@) =~= Seq::empty());
    while k < spans.len()
        invariant
            k <= spans.len(),
            spans_give(v@, spans@, ls),
            strings_view(bs@) == nonempty_lines(ls.take(k as int)),
        decreases spans.len() - k,
    {
        let (a, b) = spans[k];
        proof {
            assert(spans_in(v@, spans@) ==> spans@[k as int].0 <= spans@[k as int].1 <= v@.len());
            assert(spans@.map_values(|sp: (usize, usize)| span_text(v@, sp))[k as int] == ls[k as int]);
            assert(ls.take(k + 1).drop_last() =~= ls.take(k as int));
            assert(ls.take(k + 1).last() == ls[k as int]);
        }
        if a < b {
            let ghost prev = strings_view(bs@);
            bs.push(string_of_range(v.as_slice(), a, b));
            assert(strings_view(bs@) =~= prev.push(ls[k as int]));
        }
        k = k + 1;
    }
    assert(ls.take(spans.len() as int) =~= ls);
    match current {
        None => bs,
        Some(c) => {
            let cv = chars_of(c);
            let (ta, tb) = trim_span(cv.as_slice(), 0, cv.len());
            assert(cv@.subrange(0, cv@.len() as int) =~= cv@);
            let cur = string_of_range(cv.as_slice(), ta, tb);
            let ghost t = trim(c@);
            let ghost s = strings_view(bs@);
            let mut p: usize = 0;
            assert(s.skip(0) =~= s);
            while p < bs.len() && bs[p] != cur
                invariant
                    p <= bs.len(),
                    s == strings_view(bs@),
                    cur@ == t,
                    first_index(s, t) == match first_index(s.skip(p as int), t) {
                        Some(i) => Some(i + p),
                        None => None,
                    },
                decreases bs.len() - p,
            {
                assert(s.skip(p as int)[0] == s[p as int]);
                assert(s.skip(p as int).drop_first() =~= s.skip(p + 1));
                p = p + 1;
            }
            if p < bs.len() {
                assert(s.skip(p as int)[0] == s[p as int]);
                let item = bs.remove(p);
                bs.insert(0, item);
                assert(strings_view(bs@) =~= seq![s[p as int]] + s.remove(p as int));
            } else {
                assert(s.skip(p as int) =~= Seq::<Seq<char>>::empty());
            }
            bs
        },
    }
}

/// The commit that one `git log --oneline` line gives: the text before the
/// first space and the text after it; lines without a space give none.
pub open spec fn commit_entry(l: Seq<char>) -> Option<(Seq<char>, Seq<char>)> {
    match find(l, seq![' ']) {
        None => None,
        Some(p) => Some((l.take(p), l.skip(p + 1))),
    }
}

/// The commits of the log lines `ls`, in order.
pub open spec fn commit_entries(ls: Seq<Seq<char>>) -> Seq<(Seq<char>, Seq<char>)>
    decreases ls.len(),
{
    if ls.len() == 0 {
        Seq::empty()
    } else {
        let prev = commit_entries(ls.drop_last());
        match commit_entry(ls.last()) {
            Some(e) => prev.push(e),
            None => prev,
        }
    }
}

/// The views of a sequence of string pairs.
pub open spec fn pairs_view(v: Seq<(String, String)>) -> Seq<(Seq<char>, Seq<char>)> {
    v.map_values(|p: (String, String)| (p.0@, p.1@))
}

/// Parses `git log --oneline` output into (hash, message) pairs.
pub fn parse_commit_log(stdout: &str) -> (r: Vec<(String, String)>)
    ensures
        pairs_view(r@) == commit_entries(lines(stdout@)),
{
    let v = chars_of(stdout);
    let spans = line_spans(v.as_slice());
    let ghost ls = lines(v@);
    let space = chars_of(" ");
    assert(space@ =~= seq![' ']) by {
        reveal_strlit(" ");
    }
    let mut out: Vec<(String, String)> = Vec::new();
    let mut k: usize = 0;
    assert(ls.take(0) =~= Seq::<Seq<char>>::empty());
    assert(pairs_view(out@) =~= Seq::empty());
    while k < spans.len()
        invariant
            k <= spans.len(),
            spans_give(v@, spans@, ls),
            space@ == seq![' '],
            pairs_view(out@) == commit_entries(ls.take(k as int)),
        decreases spans.len() - k,
    {
        let (a, b) = spans[k];
        proof {
            assert(spans_in(v@, spans@) ==> spans@[k as int].0 <= spans@[k as int].1 <= v@.len());
            assert(spans@.map_values(|sp: (usize, usize)| span_text(v@, sp))[k as int] == ls[k as int]);
            assert(ls.take(k + 1).drop_last() =~= ls.take(k as int));
            assert(ls.take(k + 1).last() == ls[k as int]);
        }
        let lv = slice_range(v.as_slice(), a, b);
        match find_exec(lv.as_slice(), space.as_slice(), 0) {
            Some(p) => {
                proof {
                    crate::text::lemma_find_from(lv@, space@, 0);
                }
                let ghost prev = pairs_view(out@);
                let hash = string_of_range(lv.as_slice(), 0, p);
                let msg = string_of_range(lv.as_slice(), p + 1, lv.len());
                assert(lv@.subrange(0, p as int) =~= lv@.take(p as int));
                assert(lv@.subrange(p + 1, lv@.len() as int) =~= lv@.skip(p + 1));
                out.push((hash, msg));
                assert(pairs_view(out@) =~= prev.push((lv@.take(p as int), lv@.skip(p + 1))));
            },
            None => {},
        }
        k = k + 1;
    }
    assert(ls.take(spans.len() as int) =~= ls);
    out
}

// ---------------------------------------------------------------------------
// Reading `git diff` / `git show` output
// ---------------------------------------------------------------------------

/// The header of the single hunk that shows a new file of `n` lines.
pub open spec fn new_file_header(n: nat) -> Seq<char> {
    "@@ -0,0 +1,"@ + decimal(n) + " @@"@
}

/// The hunks that show the file content `c` as added: none for no lines,
/// else one hunk with every line marked `+`.
pub open spec fn new_file_hunks(c: Seq<char>) -> Seq<(Seq<char>, Seq<(Seq<char>, LineType)>)> {
    let ls = lines(c);
    if ls.len() == 0 {
        Seq::empty()
    } else {
        seq![(new_file_header(ls.len()), ls.map_values(|l: Seq<char>| ("+"@ + l, LineType::Added)))]
    }
}

/// The diff that git's output `text` stands for: binary when it mentions
/// `Binary files`; when it is blank, the file content `new_file` shown as
/// added if the file exists, else nothing; else the parsed hunks.
pub open spec fn diff_output(text: Seq<char>, new_file: Option<Seq<char>>) -> (Seq<(Seq<char>, Seq<(Seq<char>, LineType)>)>, bool) {
    if contains(text, "Binary files"@) {
        (Seq::empty(), true)
    } else if trim(text).len() == 0 {
        match new_file {
            Some(c) => (new_file_hunks(c), false),
            None => (Seq::empty(), false),
        }
    } else {
        (parse_hunks(lines(text)), false)
    }
}

/// The output `text` holds only whitespace.
pub fn diff_output_is_blank(text: &str) -> (b: bool)
    ensures
        b == (trim(text@).len() == 0),
{
    let v = chars_of(text);
    let (a, z) = trim_span(v.as_slice(), 0, v.len());
    assert(v@.subrange(0, v@.len() as int) =~= v@);
    a == z
}

/// The hunks that show the file content `content` as added.
pub fn new_file_diff(content: &str) -> (r: Vec<Hunk>)
    ensures
        hunks_view(r@) == new_file_hunks(content@),
{
    let v = chars_of(content);
    let spans = line_spans(v.as_slice());
    let ghost ls = lines(v@);
    if spans.len() == 0 {
        let r: Vec<Hunk> = Vec::new();
        assert(hunks_view(r@) =~= Seq::empty());
        return r;
    }
    let mut hl: Vec<HunkLine> = Vec::new();
    let mut k: usize = 0;
    let ghost f = |l: Seq<char>| ("+"@ + l, LineType::Added);
    assert(hl@.map_values(|l: HunkLine| l@) =~= ls.take(0).map_values(f));
    while k < spans.len()
        invariant
            k <= spans.len(),
            spans_give(v@, spans@, ls),
            f == |l: Seq<char>| ("+"@ + l, LineType::Added),
            hl@.map_values(|l: HunkLine| l@) == ls.take(k as int).map_values(f),
        decreases spans.len() - k,
    {
        let (a, b) = spans[k];
        proof {
            assert(spans_in(v@, spans@) ==> spans@[k as int].0 <= spans@[k as int].1 <= v@.len());
            assert(spans@.map_values(|sp: (usize, usize)| span_text(v@, sp))[k as int] == ls[k as int]);
        }
        let body = string_of_range(v.as_slice(), a, b);
        let content = crate::text::concat("+", body.as_str());
        let ghost prev = hl@.map_values(|l: HunkLine| l@);
        hl.push(HunkLine { content, line_type: LineType::Added });
        assert(hl@.map_values(|l: HunkLine| l@) =~= prev.push(f(ls[k as int])));
        assert(ls.take(k + 1).map_values(f) =~= ls.take(k as int).map_values(f).push(f(ls[k as int])));
        k = k + 1;
    }
    assert(ls.take(spans.len() as int) =~= ls);
    let mut header = "@@ -0,0 +1,".to_owned();
    push_decimal(&mut header, spans.len());
    let header = crate::text::concat(header.as_str(), " @@");
    let h = Hunk { header, lines: hl };
    let mut r: Vec<Hunk> = Vec::new();
    r.push(h);
    assert(hunks_view(r@) =~= new_file_hunks(content@));
    r
}

/// Reads git's diff output for one file. `new_file` is the file's content
/// when the file exists; it is used only when the output is blank.
pub fn interpret_diff_output(text: &str, new_file: Option<&str>) -> (r: Result<(Vec<Hunk>, bool), GitError>)
    ensures
        r matches Ok(d) && (hunks_view(d.0@), d.1) == diff_output(
            text@,
            match new_file {
                Some(c) => Some(c@),
                None => None,
            },
        ),
{
    let v = chars_of(text);
    let pat = chars_of("Binary files");
    if contains_exec(v.as_slice(), pat.as_slice()) {
        let r: Vec<Hunk> = Vec::new();
        assert(hunks_view(r@) =~= Seq::empty());
        return Ok((r, true));
    }
    if diff_output_is_blank(text) {
        match new_file {
            Some(c) => {
                return Ok((new_file_diff(c), false));
            },
            None => {
                let r: Vec<Hunk> = Vec::new();
                assert(hunks_view(r@) =~= Seq::empty());
                return Ok((r, false));
            },
        }
    }
    let hunks = parse_diff(text)?;
    Ok((hunks, false))
}

// ---------------------------------------------------------------------------
// Command lines
// ---------------------------------------------------------------------------

/// Arguments of `git status` for the working tree, with untracked files
/// listed one by one when asked.
pub fn status_args(include_untracked: bool) -> (r: Vec<String>)
    ensures
        strings_view(r@) == if include_untracked {
            seq!["status"@, "--porcelain"@, "-uall"@]
        } else {
            seq!["status"@, "--porcelain"@]
        },
{
    let mut r: Vec<String> = Vec::new();
    r.push("status".to_owned());
    r.push("--porcelain".to_owned());
    if include_untracked {
        r.push("-uall".to_owned());
    }
    assert(strings_view(r@) =~= if include_untracked {
        seq!["status"@, "--porcelain"@, "-uall"@]
    } else {
        seq!["status"@, "--porcelain"@]
    });
    r
}

/// Arguments of `git diff` for one file of the working tree, or of `HEAD`
/// against `branch`.
pub fn diff_args(path: &str, branch: Option<&str>) -> (r: Vec<String>)
    ensures
        strings_view(r@) == match branch {
            Some(b) => seq!["diff"@, "--no-ext-diff"@, "-U3"@, "HEAD"@, b@, "--"@, path@],
            None => seq!["diff"@, "--no-ext-diff"@, "-U3"@, "--"@, path@],
        },
{
    let mut r: Vec<String> = Vec::new();
    r.push("diff".to_owned());
    r.push("--no-ext-diff".to_owned());
    r.push("-U3".to_owned());
    match branch {
        Some(b) => {
            r.push("HEAD".to_owned());
            r.push(b.to_owned());
        },
        None => {},
    }
    r.push("--".to_owned());
    r.push(path.to_owned());
    assert(strings_view(r@) =~= match branch {
        Some(b) => seq!["diff"@, "--no-ext-diff"@, "-U3"@, "HEAD"@, b@, "--"@, path@],
        None => seq!["diff"@, "--no-ext-diff"@, "-U3"@, "--"@, path@],
    });
    r
}

/// Arguments of `git show` for one file of one commit.
pub fn commit_diff_args(path: &str, commit: &str) -> (r: Vec<String>)
    ensures
        strings_view(r@) == seq!["show"@, "--no-ext-diff"@, "--format="@, "-U3"@, commit@, "--"@, path@],
{
    let mut r: Vec<String> = Vec::new();
    r.push("show".to_owned());
    r.push("--no-ext-diff".to_owned());
    r.push("--format=".to_owned());
    r.push("-U3".to_owned());
    r.push(commit.to_owned());
    r.push("--".to_owned());
    r.push(path.to_owned());
    assert(strings_view(r@) =~= seq!["show"@, "--no-ext-diff"@, "--format="@, "-U3"@, commit@, "--"@, path@]);
    r
}

/// Arguments of `git diff` for one file between two refs.
pub fn range_diff_args(left: &str, right: &str, path: &str) -> (r: Vec<String>)
    ensures
        strings_view(r@) == seq!["diff"@, "--no-ext-diff"@, "-U3"@, left@, right@, "--"@, path@],
{
    let mut r: Vec<String> = Vec::new();
    r.push("diff".to_owned());
    r.push("--no-ext-diff".to_owned());
    r.push("-U3".to_owned());
    r.push(left.to_owned());
    r.push(right.to_owned());
    r.push("--".to_owned());
    r.push(path.to_owned());
    assert(strings_view(r@) =~= seq!["diff"@, "--no-ext-diff"@, "-U3"@, left@, right@, "--"@, path@]);
    r
}

/// Arguments that list the files changed between `HEAD` and `branch`.
pub fn branch_files_args(branch: &str) -> (r: Vec<String>)
    ensures
        strings_view(r@) == seq!["diff"@, "--no-ext-diff"@, "--name-status"@, "HEAD"@, branch@],
{
    let mut r: Vec<String> = Vec::new();
    r.push("diff".to_owned());
    r.push("--no-ext-diff".to_owned());
    r.push("--name-status".to_owned());
    r.push("HEAD".to_owned());
    r.push(branch.to_owned());
    assert(strings_view(r@) =~= seq!["diff"@, "--no-ext-diff"@, "--name-status"@, "HEAD"@, branch@]);
    r
}

/// Arguments that list the files one commit changed.
pub fn commit_files_args(commit: &str) -> (r: Vec<String>)
    ensures
        strings_view(r@) == seq!["diff-tree"@, "--no-commit-id"@, "--name-status"@, "-r"@, commit@],
{
    let mut r: Vec<String> = Vec::new();
    r.push("diff-tree".to_owned());
    r.push("--no-commit-id".to_owned());
    r.push("--name-status".to_owned());
    r.push("-r".to_owned());
    r.push(commit.to_owned());
    assert(strings_view(r@) =~= seq!["diff-tree"@, "--no-commit-id"@, "--name-status"@, "-r"@, commit@]);
    r
}

/// Arguments that list the files changed between two refs.
pub fn range_files_args(left: &str, right: &str) -> (r: Vec<String>)
    ensures
        strings_view(r@) == seq!["diff"@, "--no-ext-diff"@, "--name-status"@, left@, right@],
{
    let mut r: Vec<String> = Vec::new();
    r.push("diff".to_owned());
    r.push("--no-ext-diff".to_owned());
    r.push("--name-status".to_owned());
    r.push(left.to_owned());
    r.push(right.to_owned());
    assert(strings_view(r@) =~= seq!["diff"@, "--no-ext-diff"@, "--name-status"@, left@, right@]);
    r
}

/// Arguments of `git log` for the latest `limit` commits, one line each.
pub fn log_args(limit: usize) -> (r: Vec<String>)
    ensures
        strings_view(r@) == seq!["log"@, "--oneline"@, "-n"@, decimal(limit as nat)],
{
    let mut r: Vec<String> = Vec::new();
    r.push("log".to_owned());
    r.push("--oneline".to_owned());
    r.push("-n".to_owned());
    let mut n = String::new();
    push_decimal(&mut n, limit);
    assert(n@ =~= decimal(limit as nat));
    r.push(n);
    assert(strings_view(r@) =~= seq!["log"@, "--oneline"@, "-n"@, decimal(limit as nat)]);
    r
}


/// Arguments that check that the current directory is in a repository.
pub fn repo_check_args() -> (r: Vec<String>)
    ensures
        strings_view(r@) == seq!["rev-parse"@, "--git-dir"@],
{
    let mut r: Vec<String> = Vec::new();
    r.push("rev-parse".to_owned());
    r.push("--git-dir".to_owned());
    assert(strings_view(r@) =~= seq!["rev-parse"@, "--git-dir"@]);
    r
}

/// Arguments that list the local branches by short name.
pub fn branch_list_args() -> (r: Vec<String>)
    ensures
        strings_view(r@) == seq!["branch"@, "--format=%(refname:short)"@],
{
    let mut r: Vec<String> = Vec::new();
    r.push("branch".to_owned());
    r.push("--format=%(refname:short)".to_owned());
    assert(strings_view(r@) =~= seq!["branch"@, "--format=%(refname:short)"@]);
    r
}

/// Arguments that name the current branch.
pub fn current_branch_args() -> (r: Vec<String>)
    ensures
        strings_view(r@) == seq!["branch"@, "--show-current"@],
{
    let mut r: Vec<String> = Vec::new();
    r.push("branch".to_owned());
    r.push("--show-current".to_owned());
    assert(strings_view(r@) =~= seq!["branch"@, "--show-current"@]);
    r
}

/// Arguments that list the tracked and untracked, not ignored, files of the
/// work tree.
pub fn work_tree_files_args() -> (r: Vec<String>)
    ensures
        strings_view(r@) == seq!["ls-files"@, "-co"@, "--exclude-standard"@],
{
    let mut r: Vec<String> = Vec::new();
    r.push("ls-files".to_owned());
    r.push("-co".to_owned());
    r.push("--exclude-standard".to_owned());
    assert(strings_view(r@) =~= seq!["ls-files"@, "-co"@, "--exclude-standard"@]);
    r
}

proof fn lemma_porcelain_entries_contain(ls: Seq<Seq<char>>, k: int)
    requires
        0 <= k < ls.len(),
        porcelain_entry(ls[k]) is Some,
    ensures
        porcelain_entries(ls).contains(porcelain_entry(ls[k])->0),
    decreases ls.len(),
{
    let prev = porcelain_entries(ls.drop_last());
    if k < ls.len() - 1 {
        assert(ls.drop_last()[k] == ls[k]);
        lemma_porcelain_entries_contain(ls.drop_last(), k);
        let i = choose|i: int| 0 <= i < prev.len() && prev[i] == porcelain_entry(ls[k])->0;
        if porcelain_entry(ls.last()) is Some {
            assert(porcelain_entries(ls)[i] == prev[i]);
        }
    } else {
        assert(porcelain_entries(ls) == prev.push(porcelain_entry(ls[k])->0));
        assert(porcelain_entries(ls)[prev.len() as int] == porcelain_entry(ls[k])->0);
    }
}

/// A porcelain line of at least three bytes whose second code `u` is not
/// blank gives an entry, whatever its first code is: its unstaged status
/// is `u`, its staged status is the first code unless that is blank or
/// `?`, and its status is the staged code when there is one, else `u`.
pub proof fn law_porcelain_unstaged_code(stdout: Seq<char>, k: int)
    requires
        0 <= k < lines(stdout).len(),
        utf8_len(lines(stdout)[k]) >= 3,
        lines(stdout)[k].len() >= 2,
        lines(stdout)[k][1] != ' ',
    ensures
        ({
            let l = lines(stdout)[k];
            let staged = if l[0] != ' ' && l[0] != '?' {
                Some(l[0])
            } else {
                None
            };
            exists|e: (Seq<char>, char, Option<char>, Option<char>)|
                #[trigger] porcelain_entries(lines(stdout)).contains(e) && e.3 == Some(l[1]) && e.2 == staged
                    && e.1 == match staged {
                    Some(c) => c,
                    None => l[1],
                }
        }),
{
    let ls = lines(stdout);
    let l = ls[k];
    assert(porcelain_entry(l) is Some);
    lemma_porcelain_entries_contain(ls, k);
    let e = porcelain_entry(l)->0;
    assert(porcelain_entries(ls).contains(e));
}

} // verus!
