//! Ordering of character sequences and a stable sort.

use vstd::prelude::*;
use crate::text::chars_of;

verus! {

// ---------------------------------------------------------------------------
// Lexicographic order on characters sequences
// ---------------------------------------------------------------------------

/// `a` sorts strictly before `b`, comparing characters by code point. This is
/// the order of `String::cmp`, since UTF-8 keeps code point order.
pub open spec fn lex_lt(a: Seq<char>, b: Seq<char>) -> bool
    decreases a.len(),
{
    if a.len() == 0 {
        b.len() > 0
    } else if b.len() == 0 {
        false
    } else if a[0] != b[0] {
        (a[0] as int) < (b[0] as int)
    } else {
        lex_lt(a.drop_first(), b.drop_first())
    }
}

/// `a` sorts before `b` or equals it.
pub open spec fn lex_le(a: Seq<char>, b: Seq<char>) -> bool {
    !lex_lt(b, a)
}

pub proof fn lemma_lex_trichotomy(a: Seq<char>, b: Seq<char>)
    ensures
        lex_lt(a, b) || a == b || lex_lt(b, a),
        !(lex_lt(a, b) && lex_lt(b, a)),
        !lex_lt(a, a),
    decreases a.len(),
{
    if a.len() > 0 && b.len() > 0 {
        if a[0] == b[0] {
            lemma_lex_trichotomy(a.drop_first(), b.drop_first());
            if a.drop_first() == b.drop_first() {
                assert(a =~= seq![a[0]] + a.drop_first());
                assert(b =~= seq![b[0]] + b.drop_first());
            }
        } else {
            assert((a[0] as int) != (b[0] as int));
        }
    } else if a.len() == 0 && b.len() == 0 {
        assert(a =~= b);
    }
    if a.len() > 0 {
        lemma_lex_trichotomy(a.drop_first(), a.drop_first());
    }
}

pub proof fn lemma_lex_transitive(a: Seq<char>, b: Seq<char>, c: Seq<char>)
    requires
        lex_lt(a, b),
        lex_lt(b, c),
    ensures
        lex_lt(a, c),
    decreases a.len(),
{
    if a.len() > 0 && b.len() > 0 && c.len() > 0 && a[0] == b[0] && b[0] == c[0] {
        lemma_lex_transitive(a.drop_first(), b.drop_first(), c.drop_first());
    }
}

/// `a` sorts strictly before `b` (exec form of `lex_lt`).
pub fn lex_lt_exec(a: &[char], b: &[char]) -> (r: bool)
    ensures
        r == lex_lt(a@, b@),
{
    let mut i: usize = 0;
    assert(a@.skip(0) =~= a@);
    assert(b@.skip(0) =~= b@);
    while i < a.len() && i < b.len() && a[i] == b[i]
        invariant
            i <= a.len(),
            i <= b.len(),
            lex_lt(a@, b@) == lex_lt(a@.skip(i as int), b@.skip(i as int)),
        decreases a.len() - i,
    {
        assert(a@.skip(i as int).drop_first() =~= a@.skip(i + 1));
        assert(b@.skip(i as int).drop_first() =~= b@.skip(i + 1));
        i = i + 1;
    }
    proof {
        if i < a.len() {
            assert(a@.skip(i as int)[0] == a@[i as int]);
        }
        if i < b.len() {
            assert(b@.skip(i as int)[0] == b@[i as int]);
        }
    }
    if i == a.len() {
        i < b.len()
    } else if i == b.len() {
        false
    } else {
        let r = a[i] < b[i];
        assert(a@.skip(i as int).len() > 0 && b@.skip(i as int).len() > 0);
        assert(a@[i as int] != b@[i as int]);
        assert(r == ((a@[i as int] as int) < (b@[i as int] as int)));
        r
    }
}

/// `a` sorts strictly before `b`, as strings.
pub fn str_lt(a: &str, b: &str) -> (r: bool)
    ensures
        r == lex_lt(a@, b@),
{
    let av = chars_of(a);
    let bv = chars_of(b);
    lex_lt_exec(av.as_slice(), bv.as_slice())
}

// ---------------------------------------------------------------------------
// Stable insertion sort
// ---------------------------------------------------------------------------

/// Items that a stable sort can order: `key_le` is a total preorder.
pub trait SortKey: Sized {
    spec fn key_le(self, other: Self) -> bool;

    proof fn key_le_total(a: Self, b: Self)
        ensures
            a.key_le(b) || b.key_le(a),
    ;

    proof fn key_le_transitive(a: Self, b: Self, c: Self)
        requires
            a.key_le(b),
            b.key_le(c),
        ensures
            a.key_le(c),
    ;

    fn le(&self, other: &Self) -> (r: bool)
        ensures
            r == self.key_le(*other),
    ;
}

/// Where a stable sort puts `x` into the sorted `s`: after every item at
/// the front that sorts before `x` or ties with it.
pub open spec fn insert_pos<T: SortKey>(s: Seq<T>, x: T) -> nat
    decreases s.len(),
{
    if s.len() == 0 || !s[0].key_le(x) {
        0
    } else {
        1 + insert_pos(s.drop_first(), x)
    }
}

/// `s` with `x` put in at `insert_pos(s, x)`.
pub open spec fn insert_sorted<T: SortKey>(s: Seq<T>, x: T) -> Seq<T> {
    s.insert(insert_pos(s, x) as int, x)
}

/// The stable sort of `s`: items are inserted one by one, in order.
pub open spec fn sorted_by_key<T: SortKey>(s: Seq<T>) -> Seq<T>
    decreases s.len(),
{
    if s.len() == 0 {
        s
    } else {
        insert_sorted(sorted_by_key(s.drop_last()), s.last())
    }
}

/// Items of `s` are in key order.
pub open spec fn is_key_sorted<T: SortKey>(s: Seq<T>) -> bool {
    forall|i: int, j: int| 0 <= i < j < s.len() ==> s[i].key_le(s[j])
}

pub(crate) proof fn lemma_insert_pos<T: SortKey>(s: Seq<T>, x: T)
    ensures
        insert_pos(s, x) <= s.len(),
        forall|i: int| 0 <= i < insert_pos(s, x) ==> s[i].key_le(x),
        insert_pos(s, x) < s.len() ==> !s[insert_pos(s, x) as int].key_le(x),
    decreases s.len(),
{
    if s.len() > 0 && s[0].key_le(x) {
        lemma_insert_pos(s.drop_first(), x);
        assert forall|i: int| 0 <= i < insert_pos(s, x) implies s[i].key_le(x) by {
            if i > 0 {
                assert(s[i] == s.drop_first()[i - 1]);
            }
        }
    }
}

/// A sorted sequence stays sorted when an item is put in at its place.
pub proof fn lemma_insert_sorted<T: SortKey>(s: Seq<T>, x: T)
    requires
        is_key_sorted(s),
    ensures
        is_key_sorted(insert_sorted(s, x)),
        insert_sorted(s, x).to_multiset() == s.to_multiset().insert(x),
{
    let p = insert_pos(s, x) as int;
    lemma_insert_pos(s, x);
    let r = insert_sorted(s, x);
    assert forall|i: int, j: int| 0 <= i < j < r.len() implies r[i].key_le(r[j]) by {
        if j == p {
            assert(r[i] == s[i]);
        } else if i == p {
            assert(r[j] == s[j - 1]);
            T::key_le_total(x, s[p]);
            if j - 1 > p {
                T::key_le_transitive(x, s[p], s[j - 1]);
            }
        } else {
            let si = if i < p { i } else { i - 1 };
            let sj = if j < p { j } else { j - 1 };
            assert(r[i] == s[si]);
            assert(r[j] == s[sj]);
        }
    }
    s.to_multiset_ensures();
    vstd::seq_lib::lemma_seq_union_to_multiset_commutative(s.take(p), s.skip(p));
    assert(r =~= s.take(p).push(x) + s.skip(p));
    vstd::seq_lib::lemma_multiset_commutative(s.take(p).push(x), s.skip(p));
    vstd::seq_lib::lemma_multiset_commutative(s.take(p), s.skip(p));
    assert(s.take(p) + s.skip(p) =~= s);
    s.take(p).to_multiset_ensures();
}

/// The stable sort puts items in key order and keeps every item.
pub proof fn lemma_sorted_by_key<T: SortKey>(s: Seq<T>)
    ensures
        is_key_sorted(sorted_by_key(s)),
        sorted_by_key(s).to_multiset() == s.to_multiset(),
        sorted_by_key(s).len() == s.len(),
    decreases s.len(),
{
    if s.len() > 0 {
        lemma_sorted_by_key(s.drop_last());
        lemma_insert_sorted(sorted_by_key(s.drop_last()), s.last());
        s.drop_last().to_multiset_ensures();
        assert(s =~= s.drop_last().push(s.last()));
    }
    sorted_by_key(s).to_multiset_ensures();
    s.to_multiset_ensures();
}

/// Sorts `v` stably by key, as `sort_by` with a total order does.
pub fn stable_sort<T: SortKey>(v: Vec<T>) -> (r: Vec<T>)
    ensures
        r@ == sorted_by_key(v@),
{
    let ghost orig = v@;
    let mut input = v;
    let mut out: Vec<T> = Vec::new();
    let ghost mut i: int = 0;
    assert(orig.take(0) =~= Seq::<T>::empty());
    while input.len() > 0
        invariant
            0 <= i <= orig.len(),
            input@ == orig.skip(i),
            out@ == sorted_by_key(orig.take(i)),
        decreases input.len(),
    {
        let x = input.remove(0);
        let mut p: usize = 0;
        assert(out@.skip(0) =~= out@);
        while p < out.len() && out[p].le(&x)
            invariant
                p <= out.len(),
                insert_pos(out@, x) == p + insert_pos(out@.skip(p as int), x),
            decreases out.len() - p,
        {
            assert(out@.skip(p as int).drop_first() =~= out@.skip(p + 1));
            p = p + 1;
        }
        proof {
            assert(insert_pos(out@.skip(p as int), x) == 0);
            assert(orig.take(i + 1).drop_last() =~= orig.take(i));
            assert(orig.take(i + 1).last() == x);
            i = i + 1;
        }
        out.insert(p, x);
    }
    assert(orig.take(orig.len() as int) =~= orig);
    out
}

} // verus!
