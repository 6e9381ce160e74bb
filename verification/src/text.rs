//! Text primitives over character sequences, each with its contract.
//!
//! Strings are read once into a `Vec<char>`; the functions here then work on
//! index ranges of that vector and build `String`s only for their results.

use vstd::prelude::*;

verus! {

/// `String::push` appends one character.
pub assume_specification[ String::push ](s: &mut String, ch: char)
    ensures
        final(s)@ == old(s)@.push(ch),
;

/// `String::pop` removes and returns the last character, if any.
pub assume_specification[ String::pop ](s: &mut String) -> (r: Option<char>)
    ensures
        old(s)@.len() == 0 ==> r is None && final(s)@ == old(s)@,
        old(s)@.len() > 0 ==> r == Some(old(s)@.last()) && final(s)@ == old(s)@.drop_last(),
;

// ---------------------------------------------------------------------------
// Conversions
// ---------------------------------------------------------------------------

/// The characters of a string slice, in order.
pub fn chars_of(s: &str) -> (v: Vec<char>)
    ensures
        v@ == s@,
{
    let mut v: Vec<char> = Vec::new();
    for c in it: s.chars()
        invariant
            v@ == it.seq().take(it.index() as int),
            it.seq() == s@,
    {
        v.push(c);
    }
    v
}

/// A string holding `v[from..to]`.
pub fn string_of_range(v: &[char], from: usize, to: usize) -> (s: String)
    requires
        from <= to <= v.len(),
    ensures
        s@ == v@.subrange(from as int, to as int),
{
    let mut s = String::new();
    let mut i: usize = from;
    while i < to
        invariant
            from <= i <= to <= v.len(),
            s@ == v@.subrange(from as int, i as int),
        decreases to - i,
    {
        s.push(v[i]);
        i = i + 1;
        assert(v@.subrange(from as int, i as int) == v@.subrange(from as int, i - 1).push(
            v@[i - 1],
        ));
    }
    s
}

/// A string holding all of `v`.
pub fn string_of(v: &[char]) -> (s: String)
    ensures
        s@ == v@,
{
    let s = string_of_range(v, 0, v.len());
    assert(v@.subrange(0, v@.len() as int) == v@);
    s
}

/// A string holding the characters of `a` followed by those of `b`.
pub fn concat(a: &str, b: &str) -> (s: String)
    ensures
        s@ == a@ + b@,
{
    let mut s = a.to_owned();
    let bv = chars_of(b);
    let mut i: usize = 0;
    while i < bv.len()
        invariant
            i <= bv.len(),
            bv@ == b@,
            s@ == a@ + b@.take(i as int),
        decreases bv.len() - i,
    {
        s.push(bv[i]);
        i = i + 1;
        assert(b@.take(i as int) == b@.take(i - 1).push(b@[i - 1]));
    }
    assert(b@.take(b@.len() as int) == b@);
    s
}

// ---------------------------------------------------------------------------
// Splitting
// ---------------------------------------------------------------------------

/// The pieces of `s` between occurrences of `sep`, as `str::split` with a
/// character pattern gives them: always at least one piece.
pub open spec fn split_on(s: Seq<char>, sep: char) -> Seq<Seq<char>>
    decreases s.len(),
{
    if s.len() == 0 {
        seq![Seq::<char>::empty()]
    } else {
        let p = split_on(s.drop_last(), sep);
        if s.last() == sep {
            p.push(Seq::<char>::empty())
        } else {
            p.update(p.len() - 1, p.last().push(s.last()))
        }
    }
}

pub proof fn lemma_split_on_nonempty(s: Seq<char>, sep: char)
    ensures
        split_on(s, sep).len() >= 1,
    decreases s.len(),
{
    if s.len() > 0 {
        lemma_split_on_nonempty(s.drop_last(), sep);
    }
}

/// Text that ends in a separator (or is empty) splits apart from what
/// follows it: its pieces but the last, which is empty, then the pieces of
/// the rest.
pub proof fn lemma_split_on_append(a: Seq<char>, b: Seq<char>, sep: char)
    requires
        a.len() == 0 || a.last() == sep,
    ensures
        split_on(a + b, sep) == split_on(a, sep).drop_last() + split_on(b, sep),
    decreases b.len(),
{
    lemma_split_on_nonempty(a, sep);
    if b.len() == 0 {
        assert(a + b =~= a);
        if a.len() > 0 {
            assert(a.drop_last() + seq![a.last()] =~= a);
        }
        assert(split_on(a, sep).last().len() == 0);
        assert(split_on(a, sep).drop_last() + split_on(b, sep) =~= split_on(a, sep));
    } else {
        assert((a + b).drop_last() =~= a + b.drop_last());
        assert((a + b).last() == b.last());
        lemma_split_on_append(a, b.drop_last(), sep);
        lemma_split_on_nonempty(b.drop_last(), sep);
        let x = split_on(a, sep).drop_last();
        let y = split_on(b.drop_last(), sep);
        if b.last() == sep {
            assert((x + y).push(Seq::<char>::empty()) =~= x + y.push(Seq::<char>::empty()));
        } else {
            assert((x + y).last() == y.last());
            assert((x + y).update((x + y).len() - 1, (x + y).last().push(b.last())) =~= x + y.update(
                y.len() - 1,
                y.last().push(b.last()),
            ));
        }
    }
}

/// Text without a separator is its own only piece.
pub proof fn lemma_split_on_none(s: Seq<char>, sep: char)
    requires
        forall|j: int| 0 <= j < s.len() ==> s[j] != sep,
    ensures
        split_on(s, sep) == seq![s],
    decreases s.len(),
{
    if s.len() == 0 {
        assert(s =~= Seq::<char>::empty());
        assert(split_on(s, sep) =~= seq![s]);
    } else {
        let d = s.drop_last();
        assert forall|j: int| 0 <= j < d.len() implies d[j] != sep by {
            assert(d[j] == s[j]);
        }
        lemma_split_on_none(d, sep);
        assert(d.push(s.last()) =~= s);
        assert(split_on(s, sep) =~= seq![s]);
    }
}

/// The first piece of `s` begins with the characters of `s` before its
/// first separator.
pub proof fn lemma_split_on_first(s: Seq<char>, sep: char, i: int)
    requires
        0 <= i < s.len(),
        forall|j: int| 0 <= j <= i ==> s[j] != sep,
    ensures
        i < split_on(s, sep)[0].len(),
        split_on(s, sep)[0][i] == s[i],
    decreases s.len(),
{
    let d = s.drop_last();
    lemma_split_on_nonempty(d, sep);
    let p = split_on(d, sep);
    if i < d.len() {
        assert forall|j: int| 0 <= j <= i implies d[j] != sep by {
            assert(d[j] == s[j]);
        }
        lemma_split_on_first(d, sep, i);
        if s.last() != sep && p.len() == 1 {
            assert(split_on(s, sep)[0] == p[0].push(s.last()));
        } else {
            assert(split_on(s, sep)[0] == p[0]);
        }
    } else {
        assert forall|j: int| 0 <= j < s.len() implies s[j] != sep by {}
        lemma_split_on_none(s, sep);
    }
}

/// The text `s[a..b]` of a span `(a, b)`.
pub open spec fn span_text(s: Seq<char>, sp: (usize, usize)) -> Seq<char> {
    s.subrange(sp.0 as int, sp.1 as int)
}

/// Every span lies inside `s`.
pub open spec fn spans_in(s: Seq<char>, spans: Seq<(usize, usize)>) -> bool {
    forall|k: int| 0 <= k < spans.len() ==> #[trigger] spans[k].0 <= spans[k].1 <= s.len()
}

/// The spans lie inside `s` and their texts are `pieces`.
pub open spec fn spans_give(s: Seq<char>, spans: Seq<(usize, usize)>, pieces: Seq<Seq<char>>) -> bool {
    &&& spans_in(s, spans)
    &&& spans.map_values(|sp: (usize, usize)| span_text(s, sp)) == pieces
}

pub proof fn lemma_spans_push(s: Seq<char>, spans: Seq<(usize, usize)>, pieces: Seq<Seq<char>>, sp: (usize, usize))
    requires
        spans_give(s, spans, pieces),
        sp.0 <= sp.1 <= s.len(),
    ensures
        spans_give(s, spans.push(sp), pieces.push(span_text(s, sp))),
{
    assert(spans.push(sp).map_values(|sp: (usize, usize)| span_text(s, sp)) =~= pieces.push(
        span_text(s, sp),
    ));
    assert forall|k: int| 0 <= k < spans.push(sp).len() implies #[trigger] spans.push(sp)[k].0
        <= spans.push(sp)[k].1 <= s.len() by {
        if k < spans.len() {
            assert(spans.push(sp)[k] == spans[k]);
        }
    }
}

/// The index ranges of the pieces of `v` between occurrences of `sep`.
pub fn split_spans(v: &[char], sep: char) -> (r: Vec<(usize, usize)>)
    ensures
        spans_give(v@, r@, split_on(v@, sep)),
{
    let mut r: Vec<(usize, usize)> = Vec::new();
    let mut start: usize = 0;
    let mut i: usize = 0;
    assert(v@.take(0) =~= Seq::<char>::empty());
    assert(r@.map_values(|sp: (usize, usize)| span_text(v@, sp)) =~= split_on(v@.take(0), sep).drop_last());
    while i < v.len()
        invariant
            start <= i <= v.len(),
            split_on(v@.take(i as int), sep).len() == r@.len() + 1,
            spans_give(v@, r@, split_on(v@.take(i as int), sep).drop_last()),
            v@.subrange(start as int, i as int) == split_on(v@.take(i as int), sep).last(),
        decreases v.len() - i,
    {
        let ghost prev = split_on(v@.take(i as int), sep);
        assert(v@.take(i + 1).drop_last() == v@.take(i as int));
        assert(v@.take(i + 1).last() == v@[i as int]);
        if v[i] == sep {
            proof {
                lemma_spans_push(v@, r@, prev.drop_last(), (start, i));
                assert(prev.drop_last().push(span_text(v@, (start, i))) =~= prev);
            }
            r.push((start, i));
            start = i + 1;
        }
        i = i + 1;
        let ghost next = split_on(v@.take(i as int), sep);
        assert(v@.subrange(start as int, i as int) =~= next.last());
        assert(next.drop_last() =~= if v@[i - 1] == sep { prev } else { prev.drop_last() });
    }
    proof {
        lemma_split_on_nonempty(v@, sep);
        assert(v@.take(v@.len() as int) == v@);
    }
    proof {
        let p = split_on(v@, sep);
        lemma_spans_push(v@, r@, p.drop_last(), (start, v.len()));
        assert(p.drop_last().push(span_text(v@, (start, v.len()))) =~= p);
    }
    r.push((start, v.len()));
    r
}

/// `l` without one final carriage return.
pub open spec fn strip_cr(l: Seq<char>) -> Seq<char> {
    if l.len() > 0 && l.last() == '\r' {
        l.drop_last()
    } else {
        l
    }
}

/// The first `k` pieces of `p`, each with `strip_cr` applied.
pub open spec fn stripped(p: Seq<Seq<char>>, k: nat) -> Seq<Seq<char>> {
    Seq::new(k, |j: int| strip_cr(p[j]))
}

/// The lines of `s` as `str::lines` gives them: split at `\n`, one `\r` before
/// each `\n` removed, and no line after a final `\n`.
pub open spec fn lines(s: Seq<char>) -> Seq<Seq<char>> {
    let p = split_on(s, '\n');
    let n = p.len();
    let body = stripped(p, (n - 1) as nat);
    if p[n - 1].len() == 0 {
        body
    } else {
        body.push(p[n - 1])
    }
}

/// Text that ends in a line break (or is empty) gives its lines, then the
/// lines of what follows it.
pub proof fn lemma_lines_append(a: Seq<char>, b: Seq<char>)
    requires
        a.len() == 0 || a.last() == '\n',
    ensures
        lines(a + b) == lines(a) + lines(b),
{
    lemma_split_on_append(a, b, '\n');
    lemma_split_on_nonempty(a, '\n');
    lemma_split_on_nonempty(b, '\n');
    let pa = split_on(a, '\n');
    let x = pa.drop_last();
    let pb = split_on(b, '\n');
    let pp = split_on(a + b, '\n');
    assert(pp == x + pb);
    if a.len() > 0 {
        assert(a.drop_last() + seq![a.last()] =~= a);
    }
    assert(pa.last().len() == 0);
    assert(lines(a) == stripped(pa, (pa.len() - 1) as nat));
    assert(stripped(pa, (pa.len() - 1) as nat) =~= stripped(x, x.len()));
    let n = pp.len();
    assert(stripped(pp, (n - 1) as nat) =~= stripped(x, x.len()) + stripped(pb, (pb.len() - 1) as nat)) by {
        assert forall|j: int| 0 <= j < n - 1 implies #[trigger] stripped(pp, (n - 1) as nat)[j] == (stripped(
            x,
            x.len(),
        ) + stripped(pb, (pb.len() - 1) as nat))[j] by {
            if j < x.len() {
                assert(pp[j] == x[j]);
            } else {
                assert(pp[j] == pb[j - x.len()]);
            }
        }
    }
    assert(pp[n - 1] == pb[pb.len() - 1]);
    if pb[pb.len() - 1].len() == 0 {
        assert(lines(a + b) =~= lines(a) + lines(b));
    } else {
        assert(lines(a + b) =~= lines(a) + lines(b));
    }
}

/// The index ranges of the lines of `v`.
pub fn line_spans(v: &[char]) -> (r: Vec<(usize, usize)>)
    ensures
        spans_give(v@, r@, lines(v@)),
{
    let parts = split_spans(v, '\n');
    proof {
        lemma_split_on_nonempty(v@, '\n');
    }
    let ghost p = split_on(v@, '\n');
    let n = parts.len();
    let mut r: Vec<(usize, usize)> = Vec::new();
    let mut k: usize = 0;
    assert(r@.map_values(|sp: (usize, usize)| span_text(v@, sp)) =~= stripped(p, 0));
    while k + 1 < n
        invariant
            n == parts@.len() == p.len() >= 1,
            spans_give(v@, parts@, p),
            k + 1 <= n,
            spans_give(v@, r@, stripped(p, k as nat)),
        decreases n - k,
    {
        let (a, b) = parts[k];
        assert(parts@.map_values(|sp: (usize, usize)| span_text(v@, sp))[k as int] == p[k as int]);
        assert(spans_in(v@, parts@) ==> parts@[k as int].0 <= parts@[k as int].1 <= v@.len());
        if a < b && v[b - 1] == '\r' {
            proof {
                lemma_spans_push(v@, r@, stripped(p, k as nat), (a, (b - 1) as usize));
                assert(span_text(v@, (a, (b - 1) as usize)) =~= p[k as int].drop_last());
            }
            r.push((a, b - 1));
        } else {
            proof {
                lemma_spans_push(v@, r@, stripped(p, k as nat), (a, b));
            }
            r.push((a, b));
        }
        k = k + 1;
        assert(stripped(p, k as nat) =~= stripped(p, (k - 1) as nat).push(strip_cr(p[k - 1])));
    }
    let (a, b) = parts[n - 1];
    assert(parts@.map_values(|sp: (usize, usize)| span_text(v@, sp))[n - 1] == p[n - 1]);
    assert(spans_in(v@, parts@) ==> parts@[n - 1].0 <= parts@[n - 1].1 <= v@.len());
    if a < b {
        proof {
            lemma_spans_push(v@, r@, stripped(p, (n - 1) as nat), (a, b));
        }
        r.push((a, b));
    }
    r
}

// ---------------------------------------------------------------------------
// Searching
// ---------------------------------------------------------------------------

/// `pat` occurs in `s` at index `i`.
pub open spec fn matches_at(s: Seq<char>, pat: Seq<char>, i: int) -> bool {
    0 <= i && i + pat.len() <= s.len() && s.subrange(i, i + pat.len()) == pat
}

/// The first index at or after `i` where `pat` occurs in `s`.
pub open spec fn find_from(s: Seq<char>, pat: Seq<char>, i: int) -> Option<int>
    decreases s.len() + 1 - i,
{
    if i < 0 || i + pat.len() > s.len() {
        None
    } else if matches_at(s, pat, i) {
        Some(i)
    } else {
        find_from(s, pat, i + 1)
    }
}

/// The first index where `pat` occurs in `s`, as `str::find` gives it (counted
/// in characters).
pub open spec fn find(s: Seq<char>, pat: Seq<char>) -> Option<int> {
    find_from(s, pat, 0)
}

/// `pat` occurs somewhere in `s`.
pub open spec fn contains(s: Seq<char>, pat: Seq<char>) -> bool {
    find(s, pat) is Some
}

pub proof fn lemma_find_from(s: Seq<char>, pat: Seq<char>, i: int)
    requires
        0 <= i,
    ensures
        find_from(s, pat, i) matches Some(k) ==> i <= k && matches_at(s, pat, k) && forall|j: int|
            i <= j < k ==> !matches_at(s, pat, j),
        find_from(s, pat, i) is None ==> forall|j: int| i <= j ==> !matches_at(s, pat, j),
    decreases s.len() + 1 - i,
{
    if i + pat.len() <= s.len() && !matches_at(s, pat, i) {
        lemma_find_from(s, pat, i + 1);
    }
}

/// `pat` occurs in `s` at index `i` (exec form of `matches_at`).
pub fn matches_at_exec(s: &[char], pat: &[char], i: usize) -> (b: bool)
    ensures
        b == matches_at(s@, pat@, i as int),
{
    if i > s.len() || pat.len() > s.len() - i {
        return false;
    }
    let mut j: usize = 0;
    while j < pat.len()
        invariant
            j <= pat.len(),
            i + pat.len() <= s.len(),
            forall|k: int| 0 <= k < j ==> s@[i + k] == pat@[k],
        decreases pat.len() - j,
    {
        if s[i + j] != pat[j] {
            assert(s@.subrange(i as int, i + pat@.len())[j as int] != pat@[j as int]);
            return false;
        }
        j = j + 1;
    }
    assert(s@.subrange(i as int, i + pat@.len()) =~= pat@);
    true
}

/// The first index at or after `from` where `pat` occurs in `s`.
pub fn find_exec(s: &[char], pat: &[char], from: usize) -> (r: Option<usize>)
    ensures
        r matches Some(k) ==> find_from(s@, pat@, from as int) == Some(k as int),
        r is None ==> find_from(s@, pat@, from as int) is None,
{
    let mut i = from;
    while i <= s.len() && pat.len() <= s.len() - i
        invariant
            from <= i,
            find_from(s@, pat@, from as int) == find_from(s@, pat@, i as int),
        decreases s.len() + 1 - i,
    {
        if matches_at_exec(s, pat, i) {
            return Some(i);
        }
        if i >= s.len() {
            assert(s@.subrange(i as int, i as int) =~= pat@);
            return None;
        }
        i = i + 1;
    }
    None
}

/// `pat` occurs somewhere in `s` (exec form of `contains`).
pub fn contains_exec(s: &[char], pat: &[char]) -> (b: bool)
    ensures
        b == contains(s@, pat@),
{
    find_exec(s, pat, 0).is_some()
}

/// `s` begins with `pat`.
pub open spec fn starts_with(s: Seq<char>, pat: Seq<char>) -> bool {
    pat.len() <= s.len() && s.take(pat.len() as int) == pat
}

// ---------------------------------------------------------------------------
// Whitespace
// ---------------------------------------------------------------------------

/// `char::is_whitespace`: the characters with the Unicode `White_Space` property.
pub open spec fn is_whitespace(c: char) -> bool {
    let u = c as u32;
    ||| 0x09 <= u <= 0x0D
    ||| u == 0x20
    ||| u == 0x85
    ||| u == 0xA0
    ||| u == 0x1680
    ||| 0x2000 <= u <= 0x200A
    ||| u == 0x2028
    ||| u == 0x2029
    ||| u == 0x202F
    ||| u == 0x205F
    ||| u == 0x3000
}

/// Exec form of `is_whitespace`.
pub fn is_whitespace_exec(c: char) -> (b: bool)
    ensures
        b == is_whitespace(c),
{
    let u = c as u32;
    (0x09 <= u && u <= 0x0D) || u == 0x20 || u == 0x85 || u == 0xA0 || u == 0x1680 || (0x2000
        <= u && u <= 0x200A) || u == 0x2028 || u == 0x2029 || u == 0x202F || u == 0x205F || u
        == 0x3000
}

/// Number of whitespace characters at the start of `s`.
pub open spec fn lead_ws(s: Seq<char>) -> nat
    decreases s.len(),
{
    if s.len() > 0 && is_whitespace(s[0]) {
        1 + lead_ws(s.drop_first())
    } else {
        0
    }
}

/// Number of whitespace characters at the end of `s`.
pub open spec fn trail_ws(s: Seq<char>) -> nat
    decreases s.len(),
{
    if s.len() > 0 && is_whitespace(s.last()) {
        1 + trail_ws(s.drop_last())
    } else {
        0
    }
}

/// `str::trim`: `s` without leading and trailing whitespace.
pub open spec fn trim(s: Seq<char>) -> Seq<char> {
    let a = lead_ws(s);
    if a == s.len() {
        Seq::empty()
    } else {
        s.subrange(a as int, s.len() - trail_ws(s))
    }
}

pub proof fn lemma_lead_ws(s: Seq<char>)
    ensures
        lead_ws(s) <= s.len(),
        forall|j: int| 0 <= j < lead_ws(s) ==> is_whitespace(s[j]),
        lead_ws(s) < s.len() ==> !is_whitespace(s[lead_ws(s) as int]),
    decreases s.len(),
{
    if s.len() > 0 && is_whitespace(s[0]) {
        lemma_lead_ws(s.drop_first());
        assert forall|j: int| 0 <= j < lead_ws(s) implies is_whitespace(s[j]) by {
            if j > 0 {
                assert(s[j] == s.drop_first()[j - 1]);
            }
        }
    }
}

pub proof fn lemma_trail_ws(s: Seq<char>)
    ensures
        trail_ws(s) <= s.len(),
        forall|j: int| s.len() - trail_ws(s) <= j < s.len() ==> is_whitespace(s[j]),
        trail_ws(s) < s.len() ==> !is_whitespace(s[s.len() - trail_ws(s) - 1]),
    decreases s.len(),
{
    if s.len() > 0 && is_whitespace(s.last()) {
        lemma_trail_ws(s.drop_last());
        assert forall|j: int| s.len() - trail_ws(s) <= j < s.len() implies is_whitespace(s[j]) by {
            if j < s.len() - 1 {
                assert(s[j] == s.drop_last()[j]);
            }
        }
    }
}

/// The index range of `trim(v[from..to])` inside `v`.
pub fn trim_span(v: &[char], from: usize, to: usize) -> (r: (usize, usize))
    requires
        from <= to <= v.len(),
    ensures
        from <= r.0 <= r.1 <= to,
        v@.subrange(r.0 as int, r.1 as int) == trim(v@.subrange(from as int, to as int)),
{
    let ghost s = v@.subrange(from as int, to as int);
    proof {
        lemma_lead_ws(s);
        lemma_trail_ws(s);
    }
    let mut a = from;
    while a < to && is_whitespace_exec(v[a])
        invariant
            from <= a <= to <= v.len(),
            s == v@.subrange(from as int, to as int),
            forall|j: int| from <= j < a ==> is_whitespace(v@[j]),
        decreases to - a,
    {
        a = a + 1;
    }
    proof {
        // a - from == lead_ws(s)
        if a - from < lead_ws(s) {
            assert(is_whitespace(s[a - from]));
            assert(s[a - from] == v@[a as int]);
        }
        if a - from > lead_ws(s) {
            assert(s[lead_ws(s) as int] == v@[from + lead_ws(s)]);
        }
    }
    if a == to {
        return (a, a);
    }
    let mut b = to;
    while b > a && is_whitespace_exec(v[b - 1])
        invariant
            a < to,
            from <= a <= b <= to <= v.len(),
            a - from == lead_ws(s),
            s == v@.subrange(from as int, to as int),
            forall|j: int| b <= j < to ==> is_whitespace(v@[j]),
        decreases b - a,
    {
        b = b - 1;
    }
    proof {
        let t = trail_ws(s);
        if to - b < t {
            assert(is_whitespace(s[b - 1 - from]));
            assert(s[b - 1 - from] == v@[b - 1]);
        }
        if to - b > t {
            assert(s[s.len() - t - 1] == v@[to - t - 1]);
        }
        assert(v@.subrange(a as int, b as int) =~= s.subrange(lead_ws(s) as int, s.len() - t));
    }
    (a, b)
}

// ---------------------------------------------------------------------------
// Numbers
// ---------------------------------------------------------------------------

/// The decimal digits of `n`, as `usize::to_string` writes them.
pub open spec fn decimal(n: nat) -> Seq<char>
    decreases n,
{
    if n < 10 {
        seq![digit_char(n)]
    } else {
        decimal(n / 10).push(digit_char(n % 10))
    }
}

pub open spec fn digit_char(d: nat) -> char {
    if d == 0 {
        '0'
    } else if d == 1 {
        '1'
    } else if d == 2 {
        '2'
    } else if d == 3 {
        '3'
    } else if d == 4 {
        '4'
    } else if d == 5 {
        '5'
    } else if d == 6 {
        '6'
    } else if d == 7 {
        '7'
    } else if d == 8 {
        '8'
    } else {
        '9'
    }
}

fn digit_char_exec(d: usize) -> (c: char)
    requires
        d < 10,
    ensures
        c == digit_char(d as nat),
{
    if d == 0 {
        '0'
    } else if d == 1 {
        '1'
    } else if d == 2 {
        '2'
    } else if d == 3 {
        '3'
    } else if d == 4 {
        '4'
    } else if d == 5 {
        '5'
    } else if d == 6 {
        '6'
    } else if d == 7 {
        '7'
    } else if d == 8 {
        '8'
    } else {
        '9'
    }
}

/// Appends the decimal digits of `n` to `s`.
pub fn push_decimal(s: &mut String, n: usize)
    ensures
        final(s)@ == old(s)@ + decimal(n as nat),
    decreases n,
{
    if n < 10 {
        s.push(digit_char_exec(n));
        assert(old(s)@.push(digit_char(n as nat)) =~= old(s)@ + decimal(n as nat));
    } else {
        push_decimal(s, n / 10);
        s.push(digit_char_exec(n % 10));
        assert(old(s)@ + decimal(n as nat / 10) + seq![digit_char(n as nat % 10)] =~= old(s)@
            + decimal(n as nat));
    }
}

} // verus!
