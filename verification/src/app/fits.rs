//! Checking that fetched files fit the machine's bounds before a state
//! takes them.

use vstd::prelude::*;
use crate::git::{FileChange, Hunk, HunkLine, LineType};
use crate::search::{diffs_fit, hunk_texts, lemma_hunk_texts_grow};
use crate::text::{chars_of, split_spans};
use crate::order::{insert_pos, lemma_insert_pos, lemma_sorted_by_key, sorted_by_key};
use super::{files_fit, lemma_count_prefix_le, lemma_lines_prefix_le};
use super::tree::{comps_total, count_type, counts_fit, lemma_comps_total_grows, lemma_total_count_grows, lines_of_type, path_comps, total_count};

verus! {

/// `acc` plus the lines of kind `t` in `ls`, or `None` past `usize::MAX`.
fn add_lines_of_type(acc: usize, ls: &Vec<HunkLine>, t: LineType) -> (r: Option<usize>)
    ensures
        match r {
            Some(x) => x == acc + lines_of_type(ls@, t),
            None => acc + lines_of_type(ls@, t) > usize::MAX,
        },
{
    let mut x: usize = acc;
    let mut k: usize = 0;
    assert(ls@.take(0) =~= Seq::<HunkLine>::empty());
    while k < ls.len()
        invariant
            k <= ls.len(),
            x == acc + lines_of_type(ls@.take(k as int), t),
        decreases ls.len() - k,
    {
        assert(ls@.take(k + 1).drop_last() =~= ls@.take(k as int));
        if ls[k].line_type == t {
            if x == usize::MAX {
                proof {
                    lemma_lines_prefix_le(ls@, k + 1, t);
                }
                return None;
            }
            x = x + 1;
        }
        k = k + 1;
    }
    assert(ls@.take(ls.len() as int) =~= ls@);
    Some(x)
}

/// `acc` plus the lines of kind `t` in the hunks `hs`, or `None` past
/// `usize::MAX`.
fn add_count_type(acc: usize, hs: &Vec<Hunk>, t: LineType) -> (r: Option<usize>)
    ensures
        match r {
            Some(x) => x == acc + count_type(hs@, t),
            None => acc + count_type(hs@, t) > usize::MAX,
        },
{
    let mut x: usize = acc;
    let mut h: usize = 0;
    assert(hs@.take(0) =~= Seq::<Hunk>::empty());
    while h < hs.len()
        invariant
            h <= hs.len(),
            x == acc + count_type(hs@.take(h as int), t),
        decreases hs.len() - h,
    {
        assert(hs@.take(h + 1).drop_last() =~= hs@.take(h as int));
        match add_lines_of_type(x, &hs[h].lines, t) {
            Some(y) => {
                x = y;
            },
            None => {
                proof {
                    lemma_count_prefix_le(hs@, h + 1, t);
                }
                return None;
            },
        }
        h = h + 1;
    }
    assert(hs@.take(hs.len() as int) =~= hs@);
    Some(x)
}

/// The lines of kind `t` in all the files fit in a `usize`.
fn total_fits(files: &Vec<FileChange>, t: LineType) -> (r: bool)
    ensures
        r == (total_count(files@, t, files.len() as int) <= usize::MAX),
{
    let mut x: usize = 0;
    let mut i: usize = 0;
    while i < files.len()
        invariant
            i <= files.len(),
            x == total_count(files@, t, i as int),
        decreases files.len() - i,
    {
        match add_count_type(x, &files[i].hunks, t) {
            Some(y) => {
                x = y;
            },
            None => {
                proof {
                    lemma_total_count_grows(files@, t, i + 1, files.len() as int);
                }
                return false;
            },
        }
        i = i + 1;
    }
    true
}

/// The diff rows of the hunks `hs` number at most `isize::MAX`.
fn hunk_rows_fit(hs: &Vec<Hunk>) -> (r: bool)
    ensures
        r == (hunk_texts(hs@).len() <= isize::MAX),
{
    let max: usize = isize::MAX as usize;
    let mut n: usize = 0;
    let mut h: usize = 0;
    assert(hs@.take(0) =~= Seq::<Hunk>::empty());
    while h < hs.len()
        invariant
            h <= hs.len(),
            max == isize::MAX,
            n == hunk_texts(hs@.take(h as int)).len(),
            n <= max,
        decreases hs.len() - h,
    {
        assert(hs@.take(h + 1).drop_last() =~= hs@.take(h as int));
        assert(hunk_texts(hs@.take(h + 1)).len() == n + 1 + hs@[h as int].lines.len());
        let room = max - n;
        if hs[h].lines.len() >= room {
            proof {
                lemma_hunk_texts_grow(hs@, h + 1);
            }
            return false;
        }
        n = n + 1 + hs[h].lines.len();
        h = h + 1;
    }
    assert(hs@.take(hs.len() as int) =~= hs@);
    true
}

/// The path components of all the files number at most `isize::MAX`.
fn comps_fit(files: &Vec<FileChange>) -> (r: bool)
    ensures
        r == (comps_total(files@, files.len() as int) <= isize::MAX),
{
    let max: usize = isize::MAX as usize;
    let mut n: usize = 0;
    let mut i: usize = 0;
    while i < files.len()
        invariant
            i <= files.len(),
            max == isize::MAX,
            n == comps_total(files@, i as int),
            n <= max,
        decreases files.len() - i,
    {
        let v = chars_of(files[i].path.as_str());
        let spans = split_spans(v.as_slice(), '/');
        let c = spans.len();
        assert(c == path_comps(files@[i as int]).len());
        if c > max - n {
            proof {
                lemma_comps_total_grows(files@, i + 1, files.len() as int);
            }
            return false;
        }
        n = n + c;
        i = i + 1;
    }
    true
}

// ---------------------------------------------------------------------------
// Sorting keeps the files within bounds
// ---------------------------------------------------------------------------

/// The sum of `g` over the files `s`.
pub open spec fn sum_of(s: Seq<FileChange>, g: spec_fn(FileChange) -> nat) -> nat
    decreases s.len(),
{
    if s.len() == 0 {
        0
    } else {
        sum_of(s.drop_last(), g) + g(s.last())
    }
}

/// The lines of kind `t` in a file.
pub open spec fn count_of(t: LineType) -> spec_fn(FileChange) -> nat {
    |f: FileChange| count_type(f.hunks@, t)
}

/// The path components of a file.
pub open spec fn comps_of() -> spec_fn(FileChange) -> nat {
    |f: FileChange| path_comps(f).len()
}

proof fn lemma_sum_concat(a: Seq<FileChange>, b: Seq<FileChange>, g: spec_fn(FileChange) -> nat)
    ensures
        sum_of(a + b, g) == sum_of(a, g) + sum_of(b, g),
    decreases b.len(),
{
    if b.len() == 0 {
        assert(a + b =~= a);
    } else {
        lemma_sum_concat(a, b.drop_last(), g);
        assert((a + b).drop_last() =~= a + b.drop_last());
    }
}

proof fn lemma_sum_sorted(s: Seq<FileChange>, g: spec_fn(FileChange) -> nat)
    ensures
        sum_of(sorted_by_key(s), g) == sum_of(s, g),
    decreases s.len(),
{
    if s.len() > 0 {
        lemma_sum_sorted(s.drop_last(), g);
        let t = sorted_by_key(s.drop_last());
        let x = s.last();
        lemma_insert_pos(t, x);
        let p = insert_pos(t, x) as int;
        assert(sorted_by_key(s) =~= t.take(p) + seq![x] + t.skip(p));
        lemma_sum_concat(t.take(p) + seq![x], t.skip(p), g);
        lemma_sum_concat(t.take(p), seq![x], g);
        lemma_sum_concat(t.take(p), t.skip(p), g);
        assert(t.take(p) + t.skip(p) =~= t);
        assert(seq![x].drop_last() =~= Seq::<FileChange>::empty());
        assert(sum_of(seq![x], g) == g(x)) by {
            assert(sum_of(Seq::<FileChange>::empty(), g) == 0);
            assert(seq![x].last() == x);
        }
        assert(sum_of(sorted_by_key(s), g) == sum_of(t, g) + g(x));
        assert(sum_of(s, g) == sum_of(s.drop_last(), g) + g(x));
    }
}

proof fn lemma_total_count_same(a: Seq<FileChange>, b: Seq<FileChange>, t: LineType, n: int)
    requires
        0 <= n <= a.len(),
        n <= b.len(),
        forall|i: int| 0 <= i < n ==> a[i] == b[i],
    ensures
        total_count(a, t, n) == total_count(b, t, n),
        comps_total(a, n) == comps_total(b, n),
    decreases n,
{
    if n > 0 {
        lemma_total_count_same(a, b, t, n - 1);
    }
}

proof fn lemma_sums(files: Seq<FileChange>, t: LineType)
    ensures
        total_count(files, t, files.len() as int) == sum_of(files, count_of(t)),
        comps_total(files, files.len() as int) == sum_of(files, comps_of()),
    decreases files.len(),
{
    if files.len() > 0 {
        lemma_sums(files.drop_last(), t);
        lemma_total_count_same(files, files.drop_last(), t, files.len() - 1);
    }
}

/// Files that fit still fit once sorted.
pub(crate) proof fn lemma_sorted_fits(s: Seq<FileChange>)
    requires
        files_fit(s),
    ensures
        files_fit(sorted_by_key(s)),
{
    let r = sorted_by_key(s);
    lemma_sorted_by_key(s);
    lemma_sums(s, LineType::Added);
    lemma_sums(s, LineType::Removed);
    lemma_sums(r, LineType::Added);
    lemma_sums(r, LineType::Removed);
    lemma_sum_sorted(s, count_of(LineType::Added));
    lemma_sum_sorted(s, count_of(LineType::Removed));
    lemma_sum_sorted(s, comps_of());
    assert forall|i: int| 0 <= i < r.len() implies hunk_texts(#[trigger] r[i].hunks@).len() <= isize::MAX by {
        r.to_multiset_ensures();
        s.to_multiset_ensures();
        assert(r.contains(r[i]));
        assert(r.to_multiset().count(r[i]) > 0);
        assert(s.to_multiset().count(r[i]) > 0);
        assert(s.contains(r[i]));
        let j = choose|j: int| 0 <= j < s.len() && s[j] == r[i];
        assert(hunk_texts(s[j].hunks@).len() <= isize::MAX);
    }
}

/// Whether the files fit the bounds that a state needs (`files_fit`): line
/// counts, diff rows, the number of files and of path components.
pub fn files_fit_check(files: &Vec<FileChange>) -> (r: bool)
    ensures
        r == files_fit(files@),
{
    if !total_fits(files, LineType::Added) || !total_fits(files, LineType::Removed) {
        return false;
    }
    assert(counts_fit(files@));
    let mut i: usize = 0;
    while i < files.len()
        invariant
            i <= files.len(),
            forall|j: int| 0 <= j < i ==> hunk_texts(#[trigger] files@[j].hunks@).len() <= isize::MAX,
        decreases files.len() - i,
    {
        if !hunk_rows_fit(&files[i].hunks) {
            assert(!diffs_fit(files@));
            return false;
        }
        i = i + 1;
    }
    assert(diffs_fit(files@));
    if files.len() > isize::MAX as usize {
        return false;
    }
    comps_fit(files)
}

} // verus!
