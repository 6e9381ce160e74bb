//! The parser of unified diff text.

use vstd::prelude::*;
use crate::text::{
    chars_of, lemma_lines_append, lemma_split_on_first, lemma_split_on_nonempty, line_spans, lines, span_text,
    spans_give, spans_in, split_on, strip_cr, stripped, string_of_range,
};
use super::{GitError, Hunk, HunkLine, LineType, hunks_view};

verus! {

/// A line that opens a hunk: it begins with `@@`.
pub open spec fn is_hunk_header(l: Seq<char>) -> bool {
    l.len() >= 2 && l[0] == '@' && l[1] == '@'
}

/// The kind of a line inside a hunk, read from its first character.
pub open spec fn classify(l: Seq<char>) -> LineType {
    if l.len() == 0 {
        LineType::Context
    } else if l[0] == '+' {
        LineType::Added
    } else if l[0] == '-' {
        LineType::Removed
    } else if l[0] == '\\' {
        LineType::NoNewline
    } else {
        LineType::Context
    }
}

/// The hunks that the lines `ls` hold: each header line opens a hunk; each
/// other line joins the hunk open at that point, and is dropped when none is.
pub open spec fn parse_hunks(ls: Seq<Seq<char>>) -> Seq<(Seq<char>, Seq<(Seq<char>, LineType)>)>
    decreases ls.len(),
{
    if ls.len() == 0 {
        Seq::empty()
    } else {
        let prev = parse_hunks(ls.drop_last());
        let l = ls.last();
        if is_hunk_header(l) {
            prev.push((l, Seq::empty()))
        } else if prev.len() == 0 {
            prev
        } else {
            prev.update(prev.len() - 1, (prev.last().0, prev.last().1.push((l, classify(l)))))
        }
    }
}

fn classify_exec(v: &[char], a: usize, b: usize) -> (t: LineType)
    requires
        a <= b <= v.len(),
    ensures
        t == classify(v@.subrange(a as int, b as int)),
{
    if a == b {
        LineType::Context
    } else if v[a] == '+' {
        LineType::Added
    } else if v[a] == '-' {
        LineType::Removed
    } else if v[a] == '\\' {
        LineType::NoNewline
    } else {
        LineType::Context
    }
}

/// Parses unified diff text into hunks. It never fails.
pub fn parse_diff(text: &str) -> (r: Result<Vec<Hunk>, GitError>)
    ensures
        r matches Ok(hs) && hunks_view(hs@) == parse_hunks(lines(text@)),
{
    let v = chars_of(text);
    let spans = line_spans(v.as_slice());
    let ghost ls = lines(v@);
    let mut hunks: Vec<Hunk> = Vec::new();
    let mut k: usize = 0;
    assert(ls.take(0) =~= Seq::<Seq<char>>::empty());
    assert(hunks_view(hunks@) =~= Seq::empty());
    while k < spans.len()
        invariant
            k <= spans.len(),
            spans_give(v@, spans@, ls),
            hunks_view(hunks@) == parse_hunks(ls.take(k as int)),
        decreases spans.len() - k,
    {
        let (a, b) = spans[k];
        proof {
            assert(spans_in(v@, spans@) ==> spans@[k as int].0 <= spans@[k as int].1 <= v@.len());
            assert(spans@.map_values(|sp: (usize, usize)| span_text(v@, sp))[k as int] == ls[k as int]);
            assert(ls.take(k + 1).drop_last() =~= ls.take(k as int));
            assert(ls.take(k + 1).last() == ls[k as int]);
        }
        let ghost l = v@.subrange(a as int, b as int);
        let ghost prev = hunks_view(hunks@);
        if b - a >= 2 && v[a] == '@' && v[a + 1] == '@' {
            let h = Hunk { header: string_of_range(v.as_slice(), a, b), lines: Vec::new() };
            assert(h@.1 =~= Seq::empty());
            hunks.push(h);
            assert(hunks_view(hunks@) =~= prev.push((l, Seq::empty())));
        } else if hunks.len() > 0 {
            let lt = classify_exec(v.as_slice(), a, b);
            let mut h = hunks.pop().unwrap();
            assert(hunks_view(hunks@) =~= prev.drop_last());
            let ghost old_h = h;
            let line = HunkLine { content: string_of_range(v.as_slice(), a, b), line_type: lt };
            h.lines.push(line);
            assert(h@.1 =~= old_h@.1.push((l, classify(l))));
            hunks.push(h);
            assert(hunks_view(hunks@) =~= prev.update(
                prev.len() - 1,
                (prev.last().0, prev.last().1.push((l, classify(l)))),
            ));
        }
        k = k + 1;
    }
    assert(ls.take(spans.len() as int) =~= ls);
    Ok(hunks)
}

/// Every parsed hunk opens with a header line, and each of its lines is a
/// non-header line whose kind is read from its first character.
pub proof fn law_parsed_hunks(ls: Seq<Seq<char>>)
    ensures
        forall|i: int|
            0 <= i < parse_hunks(ls).len() ==> {
                let h = #[trigger] parse_hunks(ls)[i];
                &&& is_hunk_header(h.0)
                &&& forall|j: int|
                    0 <= j < h.1.len() ==> !is_hunk_header((#[trigger] h.1[j]).0) && h.1[j].1 == classify(
                        h.1[j].0,
                    )
            },
    decreases ls.len(),
{
    if ls.len() > 0 {
        law_parsed_hunks(ls.drop_last());
        let prev = parse_hunks(ls.drop_last());
        let l = ls.last();
        let cur = parse_hunks(ls);
        assert forall|i: int| 0 <= i < cur.len() implies {
            let h = #[trigger] cur[i];
            &&& is_hunk_header(h.0)
            &&& forall|j: int| 0 <= j < h.1.len() ==> !is_hunk_header((#[trigger] h.1[j]).0) && h.1[j].1 == classify(h.1[j].0)
        } by {
            if is_hunk_header(l) {
                if i < prev.len() {
                    assert(cur[i] == prev[i]);
                }
            } else if prev.len() > 0 {
                if i < prev.len() - 1 {
                    assert(cur[i] == prev[i]);
                } else {
                    let h = cur[i];
                    assert(h.1 == prev.last().1.push((l, classify(l))));
                    assert forall|j: int| 0 <= j < h.1.len() implies !is_hunk_header((#[trigger] h.1[j]).0) && h.1[j].1
                        == classify(h.1[j].0) by {
                        if j < prev.last().1.len() {
                            assert(h.1[j] == prev.last().1[j]);
                            assert(prev.last() == prev[prev.len() - 1]);
                        }
                    }
                }
            }
        }
    }
}

proof fn lemma_parse_hunks_nonempty(ls: Seq<Seq<char>>)
    requires
        ls.len() > 0,
        is_hunk_header(ls[0]),
    ensures
        parse_hunks(ls).len() > 0,
    decreases ls.len(),
{
    if ls.len() > 1 {
        assert(ls.drop_last()[0] == ls[0]);
        lemma_parse_hunks_nonempty(ls.drop_last());
    }
}

/// Lines that open with a hunk header parse apart from the lines before
/// them.
proof fn lemma_parse_hunks_append(xs: Seq<Seq<char>>, ys: Seq<Seq<char>>)
    requires
        ys.len() > 0,
        is_hunk_header(ys[0]),
    ensures
        parse_hunks(xs + ys) == parse_hunks(xs) + parse_hunks(ys),
    decreases ys.len(),
{
    assert((xs + ys).drop_last() =~= xs + ys.drop_last());
    assert((xs + ys).last() == ys.last());
    if ys.len() == 1 {
        assert(xs + ys.drop_last() =~= xs);
        assert(ys.drop_last() =~= Seq::<Seq<char>>::empty());
        assert(parse_hunks(xs + ys) =~= parse_hunks(xs) + parse_hunks(ys));
    } else {
        assert(ys.drop_last()[0] == ys[0]);
        lemma_parse_hunks_append(xs, ys.drop_last());
        lemma_parse_hunks_nonempty(ys.drop_last());
        let px = parse_hunks(xs);
        let py = parse_hunks(ys.drop_last());
        let l = ys.last();
        if is_hunk_header(l) {
            assert((px + py).push((l, Seq::empty())) =~= px + py.push((l, Seq::empty())));
        } else {
            assert((px + py).last() == py.last());
            assert((px + py).update((px + py).len() - 1, ((px + py).last().0, (px + py).last().1.push((l, classify(l)))))
                =~= px + py.update(py.len() - 1, (py.last().0, py.last().1.push((l, classify(l))))));
        }
    }
}

/// A diff split just before a hunk header parses as the hunks of the part
/// before it, then the hunks of the part from it on.
pub proof fn law_parse_split_at_header(a: Seq<char>, b: Seq<char>)
    requires
        a.len() == 0 || a.last() == '\n',
        is_hunk_header(b),
    ensures
        parse_hunks(lines(a + b)) == parse_hunks(lines(a)) + parse_hunks(lines(b)),
{
    lemma_lines_append(a, b);
    lemma_split_on_nonempty(b, '\n');
    lemma_split_on_first(b, '\n', 0);
    lemma_split_on_first(b, '\n', 1);
    let p = split_on(b, '\n');
    let n = p.len();
    let f = p[0];
    assert(is_hunk_header(f));
    if n > 1 {
        assert(lines(b)[0] == stripped(p, (n - 1) as nat)[0]);
        assert(strip_cr(f)[0] == f[0] && strip_cr(f)[1] == f[1]);
    } else {
        assert(lines(b) =~= seq![f]);
    }
    assert(is_hunk_header(lines(b)[0]));
    lemma_parse_hunks_append(lines(a), lines(b));
}

} // verus!
