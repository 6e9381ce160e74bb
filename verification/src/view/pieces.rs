//! Lines cut into marked pieces: search matches, and the changed middle of
//! a line against its counterpart. Byte offsets (as regular expressions
//! give them) are turned into character positions on the way.

use vstd::prelude::*;
use crate::git::status::{utf8_len, utf8_width, utf8_width_exec};
use crate::text::{chars_of, string_of_range};

verus! {

// ---------------------------------------------------------------------------
// Byte offsets
// ---------------------------------------------------------------------------

/// The character position of `s` at the UTF-8 byte offset `b`, searched
/// from position `k` on; none when `b` falls inside a character or past
/// the end.
pub open spec fn char_at_byte_from(s: Seq<char>, b: int, k: int) -> Option<int>
    decreases s.len() - k,
{
    if k < 0 || k > s.len() {
        None
    } else if utf8_len(s.take(k)) == b {
        Some(k)
    } else if k == s.len() || utf8_len(s.take(k)) > b {
        None
    } else {
        char_at_byte_from(s, b, k + 1)
    }
}

/// The character position of `s` at the UTF-8 byte offset `b`, when `b`
/// falls on a character boundary.
pub open spec fn char_at_byte(s: Seq<char>, b: int) -> Option<int> {
    char_at_byte_from(s, b, 0)
}

proof fn lemma_utf8_len_step(s: Seq<char>, k: int)
    requires
        0 <= k < s.len(),
    ensures
        utf8_len(s.take(k + 1)) == utf8_len(s.take(k)) + utf8_width(s[k]),
{
    assert(s.take(k + 1).drop_last() =~= s.take(k));
}

proof fn lemma_char_at_byte_from(s: Seq<char>, b: int, k: int)
    requires
        0 <= k <= s.len(),
    ensures
        char_at_byte_from(s, b, k) matches Some(j) ==> k <= j <= s.len() && utf8_len(s.take(j)) == b,
    decreases s.len() - k,
{
    if utf8_len(s.take(k)) != b && k < s.len() && utf8_len(s.take(k)) < b {
        lemma_char_at_byte_from(s, b, k + 1);
    }
}

/// The character position at a byte offset (exec form of `char_at_byte`).
pub fn char_index(v: &[char], b: usize) -> (r: Option<usize>)
    ensures
        match r {
            Some(k) => char_at_byte(v@, b as int) == Some(k as int),
            None => char_at_byte(v@, b as int) is None,
        },
        r matches Some(k) ==> k <= v.len() && utf8_len(v@.take(k as int)) == b,
{
    let mut k: usize = 0;
    let mut acc: usize = 0;
    assert(v@.take(0) =~= Seq::<char>::empty());
    while k <= v.len()
        invariant
            k <= v.len() + 1,
            k <= v.len() ==> acc == utf8_len(v@.take(k as int)),
            k <= v.len() ==> acc <= b,
            k <= v.len() ==> char_at_byte(v@, b as int) == char_at_byte_from(v@, b as int, k as int),
            k > v.len() ==> char_at_byte(v@, b as int) is None,
        decreases v.len() + 1 - k,
    {
        if acc == b {
            proof {
                lemma_char_at_byte_from(v@, b as int, k as int);
            }
            return Some(k);
        }
        if k == v.len() {
            return None;
        }
        let w = utf8_width_exec(v[k]);
        proof {
            lemma_utf8_len_step(v@, k as int);
        }
        if w > b - acc {
            assert(char_at_byte_from(v@, b as int, k + 1) is None);
            return None;
        }
        acc = acc + w;
        k = k + 1;
    }
    None
}

/// `sp` holds byte ranges of `s` in order: each on character boundaries,
/// its start not after its end, and not after the start of the next.
pub open spec fn spans_on_chars(s: Seq<char>, sp: Seq<(usize, usize)>) -> bool {
    &&& forall|i: int|
        0 <= i < sp.len() ==> (#[trigger] sp[i]).0 <= sp[i].1 && char_at_byte(s, sp[i].0 as int) is Some
            && char_at_byte(s, sp[i].1 as int) is Some
    &&& forall|i: int| 0 <= i < sp.len() - 1 ==> (#[trigger] sp[i]).1 <= sp[i + 1].0
}

// ---------------------------------------------------------------------------
// Marked pieces
// ---------------------------------------------------------------------------

/// How a piece of a line is marked.
#[derive(Debug, Clone, Copy, PartialEq, Eq, Structural)]
pub enum Mark {
    /// Shown as the line is.
    Plain,
    /// A search match.
    Match,
    /// The part that differs from the counterpart line.
    Changed,
}

/// A piece of a line and its mark.
#[derive(Debug, Clone)]
pub struct Piece {
    pub text: String,
    pub mark: Mark,
}

/// The views of pieces.
pub open spec fn pieces_view(ps: Seq<Piece>) -> Seq<(Seq<char>, Mark)> {
    ps.map_values(|p: Piece| (p.text@, p.mark))
}

/// The pieces of `s` around the matches `sp` (byte ranges) from match `i`
/// on, the text before position `last` (a character position) already
/// taken: the text before each match, the match, and what follows the last
/// match.
pub open spec fn match_pieces_from(s: Seq<char>, sp: Seq<(usize, usize)>, i: int, last: int) -> Seq<(Seq<char>, Mark)>
    decreases sp.len() - i,
{
    if i < 0 || i >= sp.len() {
        if last < s.len() {
            seq![(s.subrange(last, s.len() as int), Mark::Plain)]
        } else {
            Seq::empty()
        }
    } else {
        let a = char_at_byte(s, sp[i].0 as int)->0;
        let b = char_at_byte(s, sp[i].1 as int)->0;
        let before = if a > last {
            seq![(s.subrange(last, a), Mark::Plain)]
        } else {
            Seq::empty()
        };
        before + seq![(s.subrange(a, b), Mark::Match)] + match_pieces_from(s, sp, i + 1, b)
    }
}

/// The pieces of `s` around the matches `sp` (byte ranges).
pub open spec fn match_pieces(s: Seq<char>, sp: Seq<(usize, usize)>) -> Seq<(Seq<char>, Mark)> {
    match_pieces_from(s, sp, 0, 0)
}

proof fn lemma_match_step(s: Seq<char>, sp: Seq<(usize, usize)>, i: int, last: int, a: int, b: int)
    requires
        0 <= i < sp.len(),
        char_at_byte(s, sp[i].0 as int) == Some(a),
        char_at_byte(s, sp[i].1 as int) == Some(b),
    ensures
        match_pieces_from(s, sp, i, last) == (if a > last {
            seq![(s.subrange(last, a), Mark::Plain)]
        } else {
            Seq::empty()
        }) + seq![(s.subrange(a, b), Mark::Match)] + match_pieces_from(s, sp, i + 1, b),
{
}

/// The span `i` of `sp` lies on characters `a..b` of `s`, after the
/// previous span.
proof fn lemma_span_at(s: Seq<char>, sp: Seq<(usize, usize)>, i: int, last: int) -> (ab: (int, int))
    requires
        spans_on_chars(s, sp),
        0 <= i < sp.len(),
        0 <= last <= s.len(),
        i == 0 ==> last == 0,
        i > 0 ==> char_at_byte(s, sp[i - 1].1 as int) == Some(last),
    ensures
        char_at_byte(s, sp[i].0 as int) == Some(ab.0),
        char_at_byte(s, sp[i].1 as int) == Some(ab.1),
        last <= ab.0 <= ab.1 <= s.len(),
{
    assert(sp[i].0 <= sp[i].1);
    let a = char_at_byte(s, sp[i].0 as int)->0;
    let b = char_at_byte(s, sp[i].1 as int)->0;
    lemma_char_at_byte_from(s, sp[i].0 as int, 0);
    lemma_char_at_byte_from(s, sp[i].1 as int, 0);
    lemma_utf8_len_monotone(s, a, b);
    if i > 0 {
        assert(sp[i - 1].1 <= sp[i].0);
        lemma_char_at_byte_from(s, sp[i - 1].1 as int, 0);
        lemma_utf8_len_monotone(s, last, a);
    }
    (a, b)
}

/// Cuts `content` into pieces around the search matches `spans` (byte
/// ranges in order, as a regular expression finds them).
pub fn highlight_line(content: &str, spans: &Vec<(usize, usize)>) -> (r: Vec<Piece>)
    requires
        spans_on_chars(content@, spans@),
    ensures
        pieces_view(r@) == match_pieces(content@, spans@),
{
    let v = chars_of(content);
    let ghost s = v@;
    let mut out: Vec<Piece> = Vec::new();
    let mut last: usize = 0;
    let mut i: usize = 0;
    assert(pieces_view(out@) + match_pieces_from(s, spans@, 0, 0) =~= match_pieces(s, spans@));
    while i < spans.len()
        invariant
            i <= spans.len(),
            s == content@,
            v@ == s,
            spans_on_chars(s, spans@),
            last <= s.len(),
            i == 0 ==> last == 0,
            i > 0 ==> char_at_byte(s, spans@[i - 1].1 as int) == Some(last as int),
            pieces_view(out@) + match_pieces_from(s, spans@, i as int, last as int) == match_pieces(s, spans@),
        decreases spans.len() - i,
    {
        let ghost ab = lemma_span_at(s, spans@, i as int, last as int);
        let (sb, eb) = spans[i];
        let a = match char_index(v.as_slice(), sb) {
            Some(a) => a,
            None => {
                return out;
            },
        };
        let b = match char_index(v.as_slice(), eb) {
            Some(b) => b,
            None => {
                return out;
            },
        };
        proof {
            lemma_match_step(s, spans@, i as int, last as int, a as int, b as int);
        }
        let ghost before = pieces_view(out@);
        if a > last {
            out.push(Piece { text: string_of_range(v.as_slice(), last, a), mark: Mark::Plain });
        }
        out.push(Piece { text: string_of_range(v.as_slice(), a, b), mark: Mark::Match });
        proof {
            let pre = if a > last {
                seq![(s.subrange(last as int, a as int), Mark::Plain)]
            } else {
                Seq::empty()
            };
            assert(pieces_view(out@) =~= before + pre + seq![(s.subrange(a as int, b as int), Mark::Match)]);
        }
        last = b;
        i = i + 1;
    }
    let ghost before = pieces_view(out@);
    if last < v.len() {
        out.push(Piece { text: string_of_range(v.as_slice(), last, v.len()), mark: Mark::Plain });
        assert(pieces_view(out@) =~= before + seq![(s.subrange(last as int, s.len() as int), Mark::Plain)]);
    } else {
        assert(before + Seq::<(Seq<char>, Mark)>::empty() =~= before);
    }
    out
}

/// Byte counts grow with the number of characters.
pub proof fn lemma_utf8_len_monotone(s: Seq<char>, a: int, b: int)
    requires
        0 <= a <= s.len(),
        0 <= b <= s.len(),
    ensures
        a <= b <==> utf8_len(s.take(a)) <= utf8_len(s.take(b)),
        a < b <==> utf8_len(s.take(a)) < utf8_len(s.take(b)),
    decreases s.len(),
{
    if s.len() > 0 {
        let t = s.drop_last();
        let n = s.len() - 1;
        if a <= n && b <= n {
            assert(t.take(a) =~= s.take(a));
            assert(t.take(b) =~= s.take(b));
            lemma_utf8_len_monotone(t, a, b);
        } else if a <= n {
            assert(t.take(a) =~= s.take(a));
            assert(s.take(b) =~= s);
            lemma_utf8_len_monotone(t, a, n);
            assert(t.take(n) =~= t);
        } else if b <= n {
            assert(t.take(b) =~= s.take(b));
            assert(s.take(a) =~= s);
            lemma_utf8_len_monotone(t, b, n);
            assert(t.take(n) =~= t);
        }
    }
}

// ---------------------------------------------------------------------------
// The changed middle of a line
// ---------------------------------------------------------------------------

/// The length of the `+` or `-` marker that starts `s`, if any.
pub open spec fn marker_len(s: Seq<char>) -> int {
    if s.len() > 0 && (s[0] == '+' || s[0] == '-') {
        1
    } else {
        0
    }
}

/// The number of leading characters that `a` and `b` share.
pub open spec fn common_prefix(a: Seq<char>, b: Seq<char>) -> nat
    decreases a.len(),
{
    if a.len() == 0 || b.len() == 0 || a[0] != b[0] {
        0
    } else {
        1 + common_prefix(a.drop_first(), b.drop_first())
    }
}

/// The number of trailing characters that `a` and `b` share.
pub open spec fn common_suffix(a: Seq<char>, b: Seq<char>) -> nat
    decreases a.len(),
{
    if a.len() == 0 || b.len() == 0 || a.last() != b.last() {
        0
    } else {
        1 + common_suffix(a.drop_last(), b.drop_last())
    }
}

/// The pieces of the added or removed line `content` against its
/// counterpart `other`, markers aside: the shared start and the shared end
/// plain, the middle marked as changed. The shared end is counted only up
/// to the number of characters less the byte length of the shared start.
/// With nothing shared the line is one plain piece.
pub open spec fn word_diff_pieces(content: Seq<char>, other: Seq<char>) -> Seq<(Seq<char>, Mark)> {
    let ma = marker_len(content);
    let a = content.skip(ma);
    let b = other.skip(marker_len(other));
    let pc = common_prefix(a, b) as int;
    let pb = utf8_len(a.take(pc)) as int;
    let lim = if a.len() >= pb {
        a.len() - pb
    } else {
        0
    };
    let sc = if common_suffix(a, b) <= lim {
        common_suffix(a, b) as int
    } else {
        lim
    };
    if pc == 0 && sc == 0 {
        seq![(content, Mark::Plain)]
    } else {
        let st = ma + pc;
        let en = ma + a.len() - sc;
        seq![(content.take(st), Mark::Plain)] + (if st < en {
            seq![(content.subrange(st, en), Mark::Changed)]
        } else {
            Seq::empty()
        }) + (if sc > 0 {
            seq![(content.skip(en), Mark::Plain)]
        } else {
            Seq::empty()
        })
    }
}

proof fn lemma_common_prefix(a: Seq<char>, b: Seq<char>, i: int)
    requires
        0 <= i <= a.len(),
        i <= b.len(),
        forall|k: int| 0 <= k < i ==> a[k] == b[k],
        i == a.len() || i == b.len() || a[i] != b[i],
    ensures
        common_prefix(a, b) == i,
    decreases i,
{
    if i > 0 {
        assert forall|k: int| 0 <= k < i - 1 implies a.drop_first()[k] == b.drop_first()[k] by {
            assert(a[k + 1] == b[k + 1]);
        }
        lemma_common_prefix(a.drop_first(), b.drop_first(), i - 1);
    }
}

/// The `k`-th characters from the end of `a` and of `b` are the same.
pub open spec fn tail_eq(a: Seq<char>, b: Seq<char>, k: int) -> bool {
    a[a.len() - 1 - k] == b[b.len() - 1 - k]
}

proof fn lemma_common_suffix(a: Seq<char>, b: Seq<char>, j: int)
    requires
        0 <= j <= a.len(),
        j <= b.len(),
        forall|k: int| 0 <= k < j ==> #[trigger] tail_eq(a, b, k),
        j == a.len() || j == b.len() || !tail_eq(a, b, j),
    ensures
        common_suffix(a, b) == j,
    decreases j,
{
    if j > 0 {
        let a2 = a.drop_last();
        let b2 = b.drop_last();
        assert forall|k: int| 0 <= k < j - 1 implies #[trigger] tail_eq(a2, b2, k) by {
            assert(tail_eq(a, b, k + 1));
        }
        if j - 1 < a2.len() && j - 1 < b2.len() {
            assert(a2[a2.len() - 1 - (j - 1)] == a[a.len() - 1 - j]);
            assert(b2[b2.len() - 1 - (j - 1)] == b[b.len() - 1 - j]);
        }
        assert(tail_eq(a, b, 0));
        lemma_common_suffix(a2, b2, j - 1);
    }
}

proof fn lemma_utf8_len_at_least(s: Seq<char>)
    ensures
        utf8_len(s) >= s.len(),
    decreases s.len(),
{
    if s.len() > 0 {
        lemma_utf8_len_at_least(s.drop_last());
    }
}

fn marker_len_exec(v: &[char]) -> (r: usize)
    ensures
        r == marker_len(v@),
{
    if v.len() > 0 && (v[0] == '+' || v[0] == '-') {
        1
    } else {
        0
    }
}

/// The number of leading characters that `v[m..]` and `w[n..]` share.
fn shared_prefix(v: &[char], m: usize, w: &[char], n: usize) -> (r: usize)
    requires
        m <= v.len(),
        n <= w.len(),
    ensures
        r == common_prefix(v@.skip(m as int), w@.skip(n as int)),
        r <= v.len() - m,
{
    let ghost a = v@.skip(m as int);
    let ghost b = w@.skip(n as int);
    let alen = v.len() - m;
    let blen = w.len() - n;
    let mut i: usize = 0;
    while i < alen && i < blen && v[m + i] == w[n + i]
        invariant
            a == v@.skip(m as int),
            b == w@.skip(n as int),
            alen == a.len(),
            blen == b.len(),
            m <= v.len(),
            n <= w.len(),
            i <= alen,
            i <= blen,
            forall|k: int| 0 <= k < i ==> a[k] == b[k],
        decreases alen - i,
    {
        assert(a[i as int] == v@[m + i]);
        assert(b[i as int] == w@[n + i]);
        i = i + 1;
    }
    proof {
        if i < alen && i < blen {
            assert(a[i as int] == v@[m + i]);
            assert(b[i as int] == w@[n + i]);
        }
        lemma_common_prefix(a, b, i as int);
    }
    i
}

/// The number of trailing characters that `v[m..]` and `w[n..]` share.
fn shared_suffix(v: &[char], m: usize, w: &[char], n: usize) -> (r: usize)
    requires
        m <= v.len(),
        n <= w.len(),
    ensures
        r == common_suffix(v@.skip(m as int), w@.skip(n as int)),
{
    let ghost a = v@.skip(m as int);
    let ghost b = w@.skip(n as int);
    let alen = v.len() - m;
    let blen = w.len() - n;
    let mut j: usize = 0;
    while j < alen && j < blen && v[v.len() - 1 - j] == w[w.len() - 1 - j]
        invariant
            a == v@.skip(m as int),
            b == w@.skip(n as int),
            alen == a.len(),
            blen == b.len(),
            m <= v.len(),
            n <= w.len(),
            j <= alen,
            j <= blen,
            forall|t: int| 0 <= t < j ==> #[trigger] tail_eq(a, b, t),
        decreases alen - j,
    {
        assert(a[a.len() - 1 - j] == v@[v.len() - 1 - j]);
        assert(b[b.len() - 1 - j] == w@[w.len() - 1 - j]);
        assert(tail_eq(a, b, j as int));
        j = j + 1;
    }
    proof {
        if j < alen && j < blen {
            assert(a[a.len() - 1 - j] == v@[v.len() - 1 - j]);
            assert(b[b.len() - 1 - j] == w@[w.len() - 1 - j]);
        }
        lemma_common_suffix(a, b, j as int);
    }
    j
}

/// The number of characters of `v[m..]` less the byte length of its first
/// `pc` characters, or 0 when the bytes are more.
fn room_after_prefix(v: &[char], m: usize, pc: usize) -> (r: usize)
    requires
        m <= v.len(),
        pc <= v.len() - m,
    ensures
        ({
            let a = v@.skip(m as int);
            let pb = utf8_len(a.take(pc as int)) as int;
            r == if a.len() >= pb {
                a.len() - pb
            } else {
                0
            }
        }),
{
    let ghost a = v@.skip(m as int);
    let alen = v.len() - m;
    let mut pb: usize = 0;
    let mut k: usize = 0;
    assert(a.take(0) =~= Seq::<char>::empty());
    while k < pc
        invariant
            a == v@.skip(m as int),
            alen == a.len(),
            m <= v.len(),
            pc <= alen,
            k <= pc,
            pb == utf8_len(a.take(k as int)),
            pb <= alen,
        decreases pc - k,
    {
        let w = utf8_width_exec(v[m + k]);
        proof {
            assert(a[k as int] == v@[m + k]);
            lemma_utf8_len_step(a, k as int);
        }
        if w > alen - pb {
            proof {
                lemma_utf8_len_monotone(a, k + 1, pc as int);
            }
            return 0;
        }
        pb = pb + w;
        k = k + 1;
    }
    alen - pb
}

/// Cuts the added or removed line `content` into pieces against its
/// counterpart `other` (see `word_diff_pieces`).
pub fn word_diff_line(content: &str, other: &str) -> (r: Vec<Piece>)
    ensures
        pieces_view(r@) == word_diff_pieces(content@, other@),
{
    let cv = chars_of(content);
    let ov = chars_of(other);
    let ma = marker_len_exec(cv.as_slice());
    let mb = marker_len_exec(ov.as_slice());
    let ghost a = cv@.skip(ma as int);
    let pc = shared_prefix(cv.as_slice(), ma, ov.as_slice(), mb);
    let lim = room_after_prefix(cv.as_slice(), ma, pc);
    let j = shared_suffix(cv.as_slice(), ma, ov.as_slice(), mb);
    let sc = if j <= lim {
        j
    } else {
        lim
    };
    let alen = cv.len() - ma;
    proof {
        lemma_utf8_len_at_least(a.take(pc as int));
    }
    let mut out: Vec<Piece> = Vec::new();
    if pc == 0 && sc == 0 {
        out.push(Piece { text: content.to_owned(), mark: Mark::Plain });
        assert(pieces_view(out@) =~= word_diff_pieces(content@, other@));
        return out;
    }
    let st = ma + pc;
    let en = ma + alen - sc;
    out.push(Piece { text: string_of_range(cv.as_slice(), 0, st), mark: Mark::Plain });
    if st < en {
        out.push(Piece { text: string_of_range(cv.as_slice(), st, en), mark: Mark::Changed });
    }
    if sc > 0 {
        out.push(Piece { text: string_of_range(cv.as_slice(), en, cv.len()), mark: Mark::Plain });
    }
    proof {
        assert(cv@.subrange(0, st as int) =~= cv@.take(st as int));
        assert(cv@.subrange(en as int, cv.len() as int) =~= cv@.skip(en as int));
    }
    assert(pieces_view(out@) =~= word_diff_pieces(content@, other@));
    out
}

/// The texts of pieces, put together.
pub open spec fn joined(ps: Seq<(Seq<char>, Mark)>) -> Seq<char>
    decreases ps.len(),
{
    if ps.len() == 0 {
        Seq::empty()
    } else {
        joined(ps.drop_last()) + ps.last().0
    }
}

proof fn lemma_joined_concat(a: Seq<(Seq<char>, Mark)>, b: Seq<(Seq<char>, Mark)>)
    ensures
        joined(a + b) == joined(a) + joined(b),
    decreases b.len(),
{
    if b.len() == 0 {
        assert(a + b =~= a);
        assert(joined(a) + Seq::<char>::empty() =~= joined(a));
    } else {
        lemma_joined_concat(a, b.drop_last());
        assert((a + b).drop_last() =~= a + b.drop_last());
        assert(joined(a) + joined(b.drop_last()) + b.last().0 =~= joined(a) + (joined(b.drop_last())
            + b.last().0));
    }
}

proof fn lemma_joined_one(x: (Seq<char>, Mark))
    ensures
        joined(seq![x]) == x.0,
{
    assert(seq![x].drop_last() =~= Seq::<(Seq<char>, Mark)>::empty());
    assert(joined(Seq::<(Seq<char>, Mark)>::empty()) == Seq::<char>::empty());
    assert(seq![x].last() == x);
    assert(Seq::<char>::empty() + x.0 =~= x.0);
}

/// The pieces of a line against its counterpart put together give the
/// line back.
pub proof fn law_word_diff_rejoins(content: Seq<char>, other: Seq<char>)
    ensures
        joined(word_diff_pieces(content, other)) == content,
{
    let ma = marker_len(content);
    let a = content.skip(ma);
    let b = other.skip(marker_len(other));
    let pc = common_prefix(a, b) as int;
    let pb = utf8_len(a.take(pc)) as int;
    let lim = if a.len() >= pb {
        a.len() - pb
    } else {
        0
    };
    let sc = if common_suffix(a, b) <= lim {
        common_suffix(a, b) as int
    } else {
        lim
    };
    lemma_common_prefix_le(a, b);
    lemma_utf8_len_at_least(a.take(pc));
    if pc == 0 && sc == 0 {
        lemma_joined_one((content, Mark::Plain));
    } else {
        let st = ma + pc;
        let en = ma + a.len() - sc;
        let p1 = seq![(content.take(st), Mark::Plain)];
        let p2: Seq<(Seq<char>, Mark)> = if st < en {
            seq![(content.subrange(st, en), Mark::Changed)]
        } else {
            Seq::empty()
        };
        let p3: Seq<(Seq<char>, Mark)> = if sc > 0 {
            seq![(content.skip(en), Mark::Plain)]
        } else {
            Seq::empty()
        };
        lemma_joined_concat(p1 + p2, p3);
        lemma_joined_concat(p1, p2);
        lemma_joined_one((content.take(st), Mark::Plain));
        if st < en {
            lemma_joined_one((content.subrange(st, en), Mark::Changed));
        }
        if sc > 0 {
            lemma_joined_one((content.skip(en), Mark::Plain));
        } else {
            assert(en == content.len());
        }
        assert(joined(Seq::<(Seq<char>, Mark)>::empty()) == Seq::<char>::empty());
        assert(content.take(st) + (if st < en {
            content.subrange(st, en)
        } else {
            Seq::empty()
        }) + (if sc > 0 {
            content.skip(en)
        } else {
            Seq::empty()
        }) =~= content);
    }
}

proof fn lemma_common_prefix_le(a: Seq<char>, b: Seq<char>)
    ensures
        common_prefix(a, b) <= a.len(),
    decreases a.len(),
{
    if a.len() > 0 && b.len() > 0 && a[0] == b[0] {
        lemma_common_prefix_le(a.drop_first(), b.drop_first());
    }
}

/// The pieces of a line around search matches (ranges in order on
/// character boundaries) put together give the line back.
pub proof fn law_match_pieces_rejoin(s: Seq<char>, sp: Seq<(usize, usize)>)
    requires
        spans_on_chars(s, sp),
    ensures
        joined(match_pieces(s, sp)) == s,
{
    lemma_match_pieces_from_joined(s, sp, 0, 0);
    assert(s.take(0) =~= Seq::<char>::empty());
    assert(Seq::<char>::empty() + s.skip(0) =~= s);
}

proof fn lemma_match_pieces_from_joined(s: Seq<char>, sp: Seq<(usize, usize)>, i: int, last: int)
    requires
        spans_on_chars(s, sp),
        0 <= i <= sp.len(),
        0 <= last <= s.len(),
        i == 0 ==> last == 0,
        i > 0 ==> char_at_byte(s, sp[i - 1].1 as int) == Some(last),
    ensures
        s.take(last) + joined(match_pieces_from(s, sp, i, last)) == s,
    decreases sp.len() - i,
{
    if i >= sp.len() {
        if last < s.len() {
            lemma_joined_one((s.subrange(last, s.len() as int), Mark::Plain));
            assert(s.take(last) + s.subrange(last, s.len() as int) =~= s);
        } else {
            assert(s.take(last) + Seq::<char>::empty() =~= s);
        }
    } else {
        let ab = lemma_span_at(s, sp, i, last);
        let a = ab.0;
        let b = ab.1;
        lemma_match_step(s, sp, i, last, a, b);
        lemma_match_pieces_from_joined(s, sp, i + 1, b);
        let pre: Seq<(Seq<char>, Mark)> = if a > last {
            seq![(s.subrange(last, a), Mark::Plain)]
        } else {
            Seq::empty()
        };
        let mid = seq![(s.subrange(a, b), Mark::Match)];
        let rest = match_pieces_from(s, sp, i + 1, b);
        lemma_joined_concat(pre + mid, rest);
        lemma_joined_concat(pre, mid);
        lemma_joined_one((s.subrange(a, b), Mark::Match));
        if a > last {
            lemma_joined_one((s.subrange(last, a), Mark::Plain));
        }
        assert(s.take(last) + joined(pre) + s.subrange(a, b) =~= s.take(b));
        assert(s.take(b) + joined(rest) == s);
        assert(s.take(last) + (joined(pre) + s.subrange(a, b) + joined(rest)) =~= s.take(last) + joined(pre)
            + s.subrange(a, b) + joined(rest));
    }
}

} // verus!
