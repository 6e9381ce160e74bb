//! The file tree: the changed files grouped by directory, flattened into
//! the rows that the file pane lists.

use vstd::prelude::*;
use crate::text::{chars_of, split_on, split_spans, span_text, spans_give, spans_in, string_of, lemma_split_on_nonempty};
use crate::order::{SortKey, lex_lt, lex_lt_exec, lemma_lex_transitive, lemma_lex_trichotomy, sorted_by_key, stable_sort, is_key_sorted, lemma_sorted_by_key};
use crate::git::{FileChange, Hunk, HunkLine, LineType};
use super::mode::{Filter, TreeEntry};
use crate::git::status::slice_range;

verus! {

// ---------------------------------------------------------------------------
// A set of directory paths
// ---------------------------------------------------------------------------

/// A set of directory paths (the expanded directories).
#[derive(Debug, Clone)]
pub struct DirSet {
    dirs: Vec<String>,
}

/// Some string of `v` has the characters `x`.
pub open spec fn dir_in(v: Seq<String>, x: Seq<char>) -> bool {
    exists|i: int| 0 <= i < v.len() && #[trigger] v[i]@ == x
}

proof fn lemma_dir_in_push(v: Seq<String>, e: String, x: Seq<char>)
    ensures
        dir_in(v.push(e), x) <==> (dir_in(v, x) || e@ == x),
{
    if dir_in(v.push(e), x) {
        let i = choose|i: int| 0 <= i < v.push(e).len() && #[trigger] v.push(e)[i]@ == x;
        if i < v.len() {
            assert(v[i] == v.push(e)[i]);
        }
    }
    if dir_in(v, x) {
        let i = choose|i: int| 0 <= i < v.len() && #[trigger] v[i]@ == x;
        assert(v.push(e)[i] == v[i]);
    }
    if e@ == x {
        assert(v.push(e)[v.len() as int] == e);
    }
}

impl View for DirSet {
    type V = Set<Seq<char>>;

    closed spec fn view(&self) -> Set<Seq<char>> {
        Set::new(|x: Seq<char>| dir_in(self.dirs@, x))
    }
}

impl DirSet {
    /// The empty set.
    pub fn new() -> (r: DirSet)
        ensures
            r@ == Set::<Seq<char>>::empty(),
    {
        let r = DirSet { dirs: Vec::new() };
        assert(r@ =~= Set::<Seq<char>>::empty());
        r
    }

    /// Whether `d` is in the set.
    pub fn contains(&self, d: &str) -> (b: bool)
        ensures
            b == self@.contains(d@),
    {
        let mut i: usize = 0;
        while i < self.dirs.len()
            invariant
                i <= self.dirs.len(),
                forall|j: int| 0 <= j < i ==> self.dirs@[j]@ != d@,
            decreases self.dirs.len() - i,
        {
            if str_eq(self.dirs[i].as_str(), d) {
                assert(dir_in(self.dirs@, d@));
                return true;
            }
            i = i + 1;
        }
        false
    }

    /// Adds `d`; answers whether it was new.
    pub fn insert(&mut self, d: String) -> (b: bool)
        ensures
            final(self)@ == old(self)@.insert(d@),
            b == !old(self)@.contains(d@),
    {
        if self.contains(d.as_str()) {
            assert(self@.insert(d@) =~= self@);
            return false;
        }
        let ghost old_dirs = self.dirs@;
        self.dirs.push(d);
        assert forall|x: Seq<char>| #[trigger] dir_in(self.dirs@, x) <==> (dir_in(old_dirs, x) || d@ == x) by {
            lemma_dir_in_push(old_dirs, d, x);
        }
        assert(self@ =~= old(self)@.insert(d@));
        true
    }

    /// Removes `d`; answers whether it was there.
    pub fn remove(&mut self, d: &str) -> (b: bool)
        ensures
            final(self)@ == old(self)@.remove(d@),
            b == old(self)@.contains(d@),
    {
        let ghost old_dirs = self.dirs@;
        let mut kept: Vec<String> = Vec::new();
        let mut i: usize = 0;
        let mut found = false;
        assert(old_dirs.take(0) =~= Seq::<String>::empty());
        while i < self.dirs.len()
            invariant
                i <= self.dirs.len(),
                self.dirs@ == old_dirs,
                found == dir_in(old_dirs.take(i as int), d@),
                !dir_in(kept@, d@),
                forall|x: Seq<char>|
                    x != d@ ==> (#[trigger] dir_in(kept@, x) <==> dir_in(old_dirs.take(i as int), x)),
            decreases self.dirs.len() - i,
        {
            let ghost kept0 = kept@;
            assert(old_dirs.take(i + 1) =~= old_dirs.take(i as int).push(old_dirs[i as int]));
            assert forall|x: Seq<char>| #[trigger] dir_in(old_dirs.take(i + 1), x) <==> (dir_in(old_dirs.take(i as int), x) || old_dirs[i as int]@ == x) by {
                lemma_dir_in_push(old_dirs.take(i as int), old_dirs[i as int], x);
            }
            if str_eq(self.dirs[i].as_str(), d) {
                found = true;
            } else {
                let e = self.dirs[i].clone();
                kept.push(e);
                assert forall|x: Seq<char>| #[trigger] dir_in(kept@, x) <==> (dir_in(kept0, x) || e@ == x) by {
                    lemma_dir_in_push(kept0, e, x);
                }
            }
            i = i + 1;
        }
        assert(old_dirs.take(i as int) =~= old_dirs);
        self.dirs = kept;
        assert(self@ =~= old(self)@.remove(d@));
        found
    }
}

/// Two strings are equal.
pub fn str_eq(a: &str, b: &str) -> (r: bool)
    ensures
        r == (a@ == b@),
{
    let av = chars_of(a);
    let bv = chars_of(b);
    if av.len() != bv.len() {
        return false;
    }
    let mut i: usize = 0;
    while i < av.len()
        invariant
            i <= av.len() == bv.len(),
            av@ == a@,
            bv@ == b@,
            forall|j: int| 0 <= j < i ==> av@[j] == bv@[j],
        decreases av.len() - i,
    {
        if av[i] != bv[i] {
            assert(av@[i as int] != bv@[i as int]);
            return false;
        }
        i = i + 1;
    }
    assert(av@ =~= bv@);
    true
}

// ---------------------------------------------------------------------------
// What the tree lists
// ---------------------------------------------------------------------------

/// The file passes the filter: all files, only staged, or only unstaged ones.
pub open spec fn shown(f: FileChange, filter: Filter) -> bool {
    match filter {
        Filter::All => true,
        Filter::Staged => f.staged_status is Some,
        Filter::Unstaged => f.unstaged_status is Some,
    }
}

/// The components of a file's path, split at `/`.
pub open spec fn path_comps(f: FileChange) -> Seq<Seq<char>> {
    split_on(f.path@, '/')
}

/// `p` is a prefix of `q`.
pub open spec fn is_prefix(p: Seq<Seq<char>>, q: Seq<Seq<char>>) -> bool {
    p.len() <= q.len() && q.take(p.len() as int) == p
}

/// `p` is a node of the tree: a non-empty prefix of the components of a
/// shown file.
pub open spec fn is_node(files: Seq<FileChange>, filter: Filter, p: Seq<Seq<char>>) -> bool {
    p.len() >= 1 && exists|i: int|
        0 <= i < files.len() && shown(files[i], filter) && is_prefix(p, #[trigger] path_comps(files[i]))
}

/// The path of a child `name` under a node with path `pre`: a node under
/// the empty path takes its bare name.
pub open spec fn join_path(pre: Seq<char>, name: Seq<char>) -> Seq<char> {
    if pre.len() == 0 {
        name
    } else {
        pre + seq!['/'] + name
    }
}

/// The full path that the tree shows for the node `p`.
pub open spec fn full_path(p: Seq<Seq<char>>) -> Seq<char>
    decreases p.len(),
{
    if p.len() == 0 {
        Seq::empty()
    } else {
        join_path(full_path(p.drop_last()), p.last())
    }
}

/// The node `p` has a row: it has a name and every directory above it is
/// expanded.
pub open spec fn listed(files: Seq<FileChange>, expanded: Set<Seq<char>>, filter: Filter, p: Seq<Seq<char>>) -> bool {
    &&& is_node(files, filter, p)
    &&& p.last().len() > 0
    &&& forall|k: int| 1 <= k < p.len() ==> expanded.contains(#[trigger] full_path(p.take(k)))
}

/// The last shown file among the first `n` whose path is exactly `p`.
pub open spec fn last_file(files: Seq<FileChange>, filter: Filter, p: Seq<Seq<char>>, n: int) -> Option<int>
    decreases n,
{
    if n <= 0 {
        None
    } else if shown(files[n - 1], filter) && path_comps(files[n - 1]) == p {
        Some(n - 1)
    } else {
        last_file(files, filter, p, n - 1)
    }
}

/// Number of lines of kind `t` in `ls`.
pub open spec fn lines_of_type(ls: Seq<HunkLine>, t: LineType) -> nat
    decreases ls.len(),
{
    if ls.len() == 0 {
        0
    } else {
        lines_of_type(ls.drop_last(), t) + if ls.last().line_type == t {
            1nat
        } else {
            0nat
        }
    }
}

/// Number of lines of kind `t` in the hunks `hs`.
pub open spec fn count_type(hs: Seq<Hunk>, t: LineType) -> nat
    decreases hs.len(),
{
    if hs.len() == 0 {
        0
    } else {
        count_type(hs.drop_last(), t) + lines_of_type(hs.last().lines@, t)
    }
}

/// File `i` is the one the tree shows for its path: it is shown and no
/// later shown file has the same path.
pub open spec fn is_winner(files: Seq<FileChange>, filter: Filter, i: int) -> bool {
    last_file(files, filter, path_comps(files[i]), files.len() as int) == Some(i)
}

/// Lines of kind `t` in the files among the first `n` that the tree shows
/// at or under the node `p`.
pub open spec fn subtree_count(files: Seq<FileChange>, filter: Filter, p: Seq<Seq<char>>, t: LineType, n: int) -> nat
    decreases n,
{
    if n <= 0 {
        0
    } else {
        subtree_count(files, filter, p, t, n - 1) + if is_winner(files, filter, n - 1) && is_prefix(
            p,
            path_comps(files[n - 1]),
        ) {
            count_type(files[n - 1].hunks@, t)
        } else {
            0
        }
    }
}

/// Lines of kind `t` in the first `n` files.
pub open spec fn total_count(files: Seq<FileChange>, t: LineType, n: int) -> nat
    decreases n,
{
    if n <= 0 {
        0
    } else {
        total_count(files, t, n - 1) + count_type(files[n - 1].hunks@, t)
    }
}

/// The added and removed line counts of all files fit in a `usize`.
pub open spec fn counts_fit(files: Seq<FileChange>) -> bool {
    &&& total_count(files, LineType::Added, files.len() as int) <= usize::MAX
    &&& total_count(files, LineType::Removed, files.len() as int) <= usize::MAX
}

/// Number of path components of the first `n` files.
pub open spec fn comps_total(files: Seq<FileChange>, n: int) -> nat
    decreases n,
{
    if n <= 0 {
        0
    } else {
        comps_total(files, n - 1) + path_comps(files[n - 1]).len()
    }
}

pub(crate) proof fn lemma_comps_total_grows(files: Seq<FileChange>, a: int, b: int)
    requires
        0 <= a <= b,
    ensures
        comps_total(files, a) <= comps_total(files, b),
    decreases b,
{
    if a < b {
        lemma_comps_total_grows(files, a, b - 1);
    }
}

/// `p` comes before `q` in the tree: at the first differing component by
/// name, and a node before the nodes under it.
pub open spec fn comps_lt(p: Seq<Seq<char>>, q: Seq<Seq<char>>) -> bool
    decreases p.len(),
{
    if p.len() == 0 {
        q.len() > 0
    } else if q.len() == 0 {
        false
    } else if p[0] != q[0] {
        lex_lt(p[0], q[0])
    } else {
        comps_lt(p.drop_first(), q.drop_first())
    }
}

/// `ps` are the listed nodes, each once, in tree order.
pub open spec fn tree_listing(files: Seq<FileChange>, expanded: Set<Seq<char>>, filter: Filter, ps: Seq<Seq<Seq<char>>>) -> bool {
    &&& forall|a: int, b: int| 0 <= a < b < ps.len() ==> comps_lt(ps[a], ps[b])
    &&& forall|p: Seq<Seq<char>>| ps.contains(p) <==> listed(files, expanded, filter, p)
}

/// `rows` are the rows of the tree: one per listed node, in tree order.
pub open spec fn is_tree_of(rows: Seq<TreeEntry>, files: Seq<FileChange>, expanded: Set<Seq<char>>, filter: Filter) -> bool {
    exists|ps: Seq<Seq<Seq<char>>>|
        tree_listing(files, expanded, filter, ps) && rows.len() == ps.len() && forall|k: int|
            0 <= k < ps.len() ==> entry_matches(#[trigger] rows[k], files, expanded, filter, ps[k])
}

/// The row `e` shows the node `p`.
pub open spec fn entry_matches(e: TreeEntry, files: Seq<FileChange>, expanded: Set<Seq<char>>, filter: Filter, p: Seq<Seq<char>>) -> bool {
    let w = last_file(files, filter, p, files.len() as int);
    &&& e.name@ == p.last()
    &&& e.full_path@ == full_path(p)
    &&& e.depth == p.len() - 1
    &&& e.is_dir == (w is None)
    &&& e.expanded == (w is None && expanded.contains(full_path(p)))
    &&& e.file_index == match w {
        Some(i) => Some(i as usize),
        None => None,
    }
    &&& e.status == match w {
        Some(i) => Some(files[i].status),
        None => None,
    }
    &&& e.added == subtree_count(files, filter, p, LineType::Added, files.len() as int)
    &&& e.removed == subtree_count(files, filter, p, LineType::Removed, files.len() as int)
}

// ---------------------------------------------------------------------------
// Tree order
// ---------------------------------------------------------------------------

pub proof fn lemma_comps_trichotomy(p: Seq<Seq<char>>, q: Seq<Seq<char>>)
    ensures
        comps_lt(p, q) || p == q || comps_lt(q, p),
        !(comps_lt(p, q) && comps_lt(q, p)),
        !comps_lt(p, p),
    decreases p.len(),
{
    if p.len() > 0 && q.len() > 0 {
        if p[0] == q[0] {
            lemma_comps_trichotomy(p.drop_first(), q.drop_first());
            if p.drop_first() == q.drop_first() {
                assert(p =~= seq![p[0]] + p.drop_first());
                assert(q =~= seq![q[0]] + q.drop_first());
            }
        } else {
            lemma_lex_trichotomy(p[0], q[0]);
        }
    } else if p.len() == 0 && q.len() == 0 {
        assert(p =~= q);
    }
    if p.len() > 0 {
        lemma_comps_trichotomy(p.drop_first(), p.drop_first());
    }
}

pub proof fn lemma_comps_transitive(a: Seq<Seq<char>>, b: Seq<Seq<char>>, c: Seq<Seq<char>>)
    requires
        comps_lt(a, b),
        comps_lt(b, c),
    ensures
        comps_lt(a, c),
    decreases a.len(),
{
    if a.len() > 0 && b.len() > 0 && c.len() > 0 {
        if a[0] == b[0] && b[0] == c[0] {
            lemma_comps_transitive(a.drop_first(), b.drop_first(), c.drop_first());
        } else if a[0] == b[0] {
        } else if b[0] == c[0] {
        } else {
            lemma_lex_transitive(a[0], b[0], c[0]);
            if a[0] == c[0] {
                lemma_lex_trichotomy(a[0], b[0]);
            }
        }
    }
}

/// The view of a list of components.
pub open spec fn comps_view(v: Seq<Vec<char>>) -> Seq<Seq<char>> {
    v.map_values(|c: Vec<char>| c@)
}

/// A tree node, by its components.
pub struct NodeKey {
    pub parts: Vec<Vec<char>>,
}

impl View for NodeKey {
    type V = Seq<Seq<char>>;

    open spec fn view(&self) -> Seq<Seq<char>> {
        comps_view(self.parts@)
    }
}

/// `p` comes before `q` in the tree (exec form of `comps_lt`).
fn comps_lt_exec(p: &Vec<Vec<char>>, q: &Vec<Vec<char>>) -> (r: bool)
    ensures
        r == comps_lt(comps_view(p@), comps_view(q@)),
{
    let ghost pv = comps_view(p@);
    let ghost qv = comps_view(q@);
    let mut i: usize = 0;
    assert(pv.skip(0) =~= pv);
    assert(qv.skip(0) =~= qv);
    while i < p.len() && i < q.len()
        invariant
            i <= p.len(),
            i <= q.len(),
            pv == comps_view(p@),
            qv == comps_view(q@),
            comps_lt(pv, qv) == comps_lt(pv.skip(i as int), qv.skip(i as int)),
        decreases p.len() - i,
    {
        assert(pv.skip(i as int)[0] == p@[i as int]@);
        assert(qv.skip(i as int)[0] == q@[i as int]@);
        if lex_lt_exec(p[i].as_slice(), q[i].as_slice()) {
            proof {
                lemma_lex_trichotomy(p@[i as int]@, q@[i as int]@);
            }
            return true;
        }
        if lex_lt_exec(q[i].as_slice(), p[i].as_slice()) {
            proof {
                lemma_lex_trichotomy(p@[i as int]@, q@[i as int]@);
            }
            return false;
        }
        proof {
            lemma_lex_trichotomy(p@[i as int]@, q@[i as int]@);
        }
        assert(pv.skip(i as int).drop_first() =~= pv.skip(i + 1));
        assert(qv.skip(i as int).drop_first() =~= qv.skip(i + 1));
        i = i + 1;
    }
    i == p.len() && i < q.len()
}

impl SortKey for NodeKey {
    open spec fn key_le(self, other: NodeKey) -> bool {
        !comps_lt(other@, self@)
    }

    proof fn key_le_total(a: NodeKey, b: NodeKey) {
        lemma_comps_trichotomy(a@, b@);
    }

    proof fn key_le_transitive(a: NodeKey, b: NodeKey, c: NodeKey) {
        lemma_comps_trichotomy(a@, b@);
        lemma_comps_trichotomy(b@, c@);
        lemma_comps_trichotomy(a@, c@);
        if comps_lt(c@, a@) {
            if a@ == b@ {
            } else {
                lemma_comps_transitive(c@, a@, b@);
            }
        }
    }

    fn le(&self, other: &NodeKey) -> (r: bool) {
        !comps_lt_exec(&other.parts, &self.parts)
    }
}

// ---------------------------------------------------------------------------
// Building the rows
// ---------------------------------------------------------------------------

/// The components of `path`, split at `/`.
fn comps_of(path: &str) -> (r: Vec<Vec<char>>)
    ensures
        comps_view(r@) == split_on(path@, '/'),
{
    let v = chars_of(path);
    let spans = split_spans(v.as_slice(), '/');
    let ghost ps = split_on(v@, '/');
    let mut r: Vec<Vec<char>> = Vec::new();
    let mut k: usize = 0;
    assert(comps_view(r@) =~= ps.take(0));
    while k < spans.len()
        invariant
            k <= spans.len(),
            spans_give(v@, spans@, ps),
            comps_view(r@) == ps.take(k as int),
        decreases spans.len() - k,
    {
        let (a, b) = spans[k];
        proof {
            assert(spans_in(v@, spans@) ==> spans@[k as int].0 <= spans@[k as int].1 <= v@.len());
            assert(spans@.map_values(|sp: (usize, usize)| span_text(v@, sp))[k as int] == ps[k as int]);
        }
        let c = slice_range(v.as_slice(), a, b);
        assert(c@ == ps[k as int]);
        let ghost r0 = r@;
        r.push(c);
        assert(comps_view(r@) =~= comps_view(r0).push(c@));
        assert(comps_view(r@) =~= ps.take(k + 1));
        k = k + 1;
    }
    assert(ps.take(spans.len() as int) =~= ps);
    r
}

/// A copy of the first `k` components of `c`.
fn prefix_key(c: &Vec<Vec<char>>, k: usize) -> (r: NodeKey)
    requires
        k <= c.len(),
    ensures
        r@ == comps_view(c@).take(k as int),
{
    let mut parts: Vec<Vec<char>> = Vec::new();
    let mut m: usize = 0;
    while m < k
        invariant
            m <= k <= c.len(),
            comps_view(parts@) == comps_view(c@).take(m as int),
        decreases k - m,
    {
        let part = slice_range(c[m].as_slice(), 0, c[m].len());
        assert(c@[m as int]@.subrange(0, c@[m as int]@.len() as int) =~= c@[m as int]@);
        assert(part@ == comps_view(c@)[m as int]);
        let ghost p0 = parts@;
        parts.push(part);
        assert(comps_view(parts@) =~= comps_view(p0).push(part@));
        assert(comps_view(parts@) =~= comps_view(c@).take(m + 1));
        m = m + 1;
    }
    NodeKey { parts }
}

/// Two component lists are equal.
fn comps_eq(a: &Vec<Vec<char>>, b: &Vec<Vec<char>>) -> (r: bool)
    ensures
        r == (comps_view(a@) == comps_view(b@)),
{
    proof {
        lemma_comps_trichotomy(comps_view(a@), comps_view(b@));
    }
    !comps_lt_exec(a, b) && !comps_lt_exec(b, a)
}

/// `p` is a prefix of `q` (exec form of `is_prefix`).
fn is_prefix_exec(p: &Vec<Vec<char>>, q: &Vec<Vec<char>>) -> (r: bool)
    ensures
        r == is_prefix(comps_view(p@), comps_view(q@)),
{
    if p.len() > q.len() {
        return false;
    }
    let mut i: usize = 0;
    while i < p.len()
        invariant
            i <= p.len() <= q.len(),
            forall|j: int| 0 <= j < i ==> p@[j]@ == q@[j]@,
        decreases p.len() - i,
    {
        let pi = p[i].as_slice();
        let qi = q[i].as_slice();
        if crate::order::lex_lt_exec(pi, qi) || crate::order::lex_lt_exec(qi, pi) {
            proof {
                lemma_lex_trichotomy(p@[i as int]@, q@[i as int]@);
                assert(comps_view(q@).take(p.len() as int)[i as int] == q@[i as int]@);
                assert(comps_view(p@)[i as int] == p@[i as int]@);
            }
            return false;
        }
        proof {
            lemma_lex_trichotomy(p@[i as int]@, q@[i as int]@);
        }
        i = i + 1;
    }
    assert(comps_view(q@).take(p.len() as int) =~= comps_view(p@));
    true
}

/// The file passes the filter (exec form of `shown`).
fn shown_exec(f: &FileChange, filter: Filter) -> (b: bool)
    ensures
        b == shown(*f, filter),
{
    match filter {
        Filter::All => true,
        Filter::Staged => f.staged_status.is_some(),
        Filter::Unstaged => f.unstaged_status.is_some(),
    }
}

/// Number of lines of kind `t` in the hunks `hs`.
fn count_lines(hs: &Vec<Hunk>, t: LineType) -> (r: usize)
    requires
        count_type(hs@, t) <= usize::MAX,
    ensures
        r == count_type(hs@, t),
{
    let mut total: usize = 0;
    let mut h: usize = 0;
    assert(hs@.take(0) =~= Seq::<Hunk>::empty());
    while h < hs.len()
        invariant
            h <= hs.len(),
            count_type(hs@, t) <= usize::MAX,
            total == count_type(hs@.take(h as int), t),
        decreases hs.len() - h,
    {
        let ls = &hs[h].lines;
        assert(hs@.take(h + 1).drop_last() =~= hs@.take(h as int));
        proof {
            lemma_count_type_prefix(hs@, h + 1);
        }
        let mut k: usize = 0;
        assert(ls@.take(0) =~= Seq::<HunkLine>::empty());
        while k < ls.len()
            invariant
                k <= ls.len(),
                ls == hs@[h as int].lines,
                count_type(hs@.take(h + 1), t) <= usize::MAX,
                count_type(hs@.take(h + 1), t) == count_type(hs@.take(h as int), t) + lines_of_type(ls@, t),
                total == count_type(hs@.take(h as int), t) + lines_of_type(ls@.take(k as int), t),
            decreases ls.len() - k,
        {
            assert(ls@.take(k + 1).drop_last() =~= ls@.take(k as int));
            proof {
                lemma_lines_of_type_prefix(ls@, t, k + 1);
            }
            if ls[k].line_type == t {
                total = total + 1;
            }
            k = k + 1;
        }
        assert(ls@.take(ls.len() as int) =~= ls@);
        h = h + 1;
    }
    assert(hs@.take(hs.len() as int) =~= hs@);
    total
}

proof fn lemma_lines_of_type_prefix(ls: Seq<HunkLine>, t: LineType, k: int)
    requires
        0 <= k <= ls.len(),
    ensures
        lines_of_type(ls.take(k), t) <= lines_of_type(ls, t),
    decreases ls.len(),
{
    if k < ls.len() {
        assert(ls.drop_last().take(k) =~= ls.take(k));
        lemma_lines_of_type_prefix(ls.drop_last(), t, k);
    } else {
        assert(ls.take(k) =~= ls);
    }
}

proof fn lemma_count_type_prefix(hs: Seq<Hunk>, k: int)
    requires
        0 <= k <= hs.len(),
    ensures
        forall|t: LineType| count_type(hs.take(k), t) <= #[trigger] count_type(hs, t),
    decreases hs.len(),
{
    if k < hs.len() {
        assert(hs.drop_last().take(k) =~= hs.take(k));
        lemma_count_type_prefix(hs.drop_last(), k);
        assert forall|t: LineType| count_type(hs.take(k), t) <= #[trigger] count_type(hs, t) by {
            assert(count_type(hs.drop_last().take(k), t) <= count_type(hs.drop_last(), t));
        }
    } else {
        assert(hs.take(k) =~= hs);
    }
}

pub(crate) proof fn lemma_total_count_grows(files: Seq<FileChange>, t: LineType, a: int, b: int)
    requires
        0 <= a <= b,
    ensures
        total_count(files, t, a) <= total_count(files, t, b),
        a < b ==> count_type(files[a].hunks@, t) <= total_count(files, t, b),
    decreases b,
{
    if a < b {
        lemma_total_count_grows(files, t, a, b - 1);
        if a < b - 1 {
            lemma_total_count_grows(files, t, a, b - 1);
        }
    }
}

proof fn lemma_subtree_le_total(files: Seq<FileChange>, filter: Filter, p: Seq<Seq<char>>, t: LineType, n: int)
    ensures
        subtree_count(files, filter, p, t, n) <= total_count(files, t, n),
    decreases n,
{
    if n > 0 {
        lemma_subtree_le_total(files, filter, p, t, n - 1);
    }
}

/// Some key of `keys` stands for the node `p`.
pub open spec fn key_in(keys: Seq<NodeKey>, p: Seq<Seq<char>>) -> bool {
    exists|j: int| 0 <= j < keys.len() && #[trigger] keys[j]@ == p
}

/// The components of every file, position by position.
pub open spec fn comps_table(all: Seq<Vec<Vec<char>>>, files: Seq<FileChange>) -> bool {
    &&& all.len() == files.len()
    &&& forall|i: int| 0 <= i < files.len() ==> comps_view(#[trigger] all[i]@) == path_comps(files[i])
}

/// The components of every file.
fn comps_all(files: &[FileChange]) -> (r: Vec<Vec<Vec<char>>>)
    ensures
        comps_table(r@, files@),
{
    let mut r: Vec<Vec<Vec<char>>> = Vec::new();
    let mut i: usize = 0;
    while i < files.len()
        invariant
            i <= files.len(),
            r.len() == i,
            forall|j: int| 0 <= j < i ==> comps_view(#[trigger] r@[j]@) == path_comps(files@[j]),
        decreases files.len() - i,
    {
        r.push(comps_of(files[i].path.as_str()));
        i = i + 1;
    }
    r
}

/// One key for every prefix of the components of every shown file.
fn collect_node_keys(all: &Vec<Vec<Vec<char>>>, files: &[FileChange], filter: Filter) -> (r: Vec<NodeKey>)
    requires
        comps_table(all@, files@),
    ensures
        forall|j: int| 0 <= j < r.len() ==> is_node(files@, filter, #[trigger] r@[j]@),
        forall|i: int, k: int|
            0 <= i < files.len() && shown(files@[i], filter) && 1 <= k <= path_comps(files@[i]).len()
                ==> key_in(r@, #[trigger] path_comps(files@[i]).take(k)),
        r.len() <= comps_total(files@, files.len() as int),
{
    let mut keys: Vec<NodeKey> = Vec::new();
    let mut i: usize = 0;
    while i < files.len()
        invariant
            i <= files.len(),
            comps_table(all@, files@),
            forall|j: int| 0 <= j < keys.len() ==> is_node(files@, filter, #[trigger] keys@[j]@),
            forall|i2: int, k: int|
                0 <= i2 < i && shown(files@[i2], filter) && 1 <= k <= path_comps(files@[i2]).len()
                    ==> key_in(keys@, #[trigger] path_comps(files@[i2]).take(k)),
            keys.len() <= comps_total(files@, i as int),
        decreases files.len() - i,
    {
        if shown_exec(&files[i], filter) {
            let c = &all[i];
            assert(comps_view(c@) == path_comps(files@[i as int]));
            let mut k: usize = 0;
            while k < c.len()
                invariant
                    0 <= k <= c.len(),
                    i < files.len(),
                    comps_table(all@, files@),
                    c == all@[i as int],
                    shown(files@[i as int], filter),
                    forall|j: int| 0 <= j < keys.len() ==> is_node(files@, filter, #[trigger] keys@[j]@),
                    forall|i2: int, k2: int|
                        0 <= i2 < i && shown(files@[i2], filter) && 1 <= k2 <= path_comps(files@[i2]).len()
                            ==> key_in(keys@, #[trigger] path_comps(files@[i2]).take(k2)),
                    forall|k2: int|
                        1 <= k2 <= k ==> key_in(keys@, #[trigger] path_comps(files@[i as int]).take(k2)),
                    keys.len() <= comps_total(files@, i as int) + k,
                    comps_view(c@).len() == c.len(),
                decreases c.len() - k,
            {
                let key = prefix_key(c, k + 1);
                let ghost p = key@;
                proof {
                    assert(is_prefix(p, path_comps(files@[i as int])));
                }
                let ghost keys0 = keys@;
                keys.push(key);
                proof {
                    assert(keys@[keys@.len() - 1]@ == p);
                    assert forall|j: int| 0 <= j < keys.len() implies is_node(files@, filter, #[trigger] keys@[j]@) by {
                        if j < keys0.len() {
                            assert(keys@[j] == keys0[j]);
                        }
                    }
                    assert forall|p2: Seq<Seq<char>>| key_in(keys0, p2) implies key_in(keys@, p2) by {
                        let j = choose|j: int| 0 <= j < keys0.len() && #[trigger] keys0[j]@ == p2;
                        assert(keys@[j] == keys0[j]);
                    }
                }
                k = k + 1;
            }
        }
        i = i + 1;
    }
    keys
}

/// The keys of a sorted sequence, each once.
fn dedup_keys(sorted: Vec<NodeKey>) -> (r: Vec<NodeKey>)
    requires
        is_key_sorted(sorted@),
    ensures
        forall|a: int, b: int| 0 <= a < b < r.len() ==> comps_lt(r@[a]@, r@[b]@),
        forall|p: Seq<Seq<char>>| key_in(r@, p) <==> key_in(sorted@, p),
        r.len() <= sorted.len(),
{
    let ghost orig = sorted@;
    let mut rest = sorted;
    let mut out: Vec<NodeKey> = Vec::new();
    let ghost mut t: int = 0;
    while rest.len() > 0
        invariant
            0 <= t <= orig.len(),
            is_key_sorted(orig),
            rest@ == orig.skip(t),
            forall|a: int, b: int| 0 <= a < b < out.len() ==> comps_lt(out@[a]@, out@[b]@),
            forall|p: Seq<Seq<char>>| key_in(out@, p) <==> key_in(orig.take(t), p),
            out.len() > 0 <==> t > 0,
            out.len() <= t,
            t > 0 ==> out@[out.len() - 1]@ == orig[t - 1]@,
        decreases rest.len(),
    {
        let x = rest.remove(0);
        assert(x == orig[t]);
        let ghost out0 = out@;
        let keep = if out.len() == 0 {
            true
        } else {
            let last = out.len() - 1;
            !comps_eq(&out[last].parts, &x.parts)
        };
        proof {
            assert forall|p: Seq<Seq<char>>| key_in(orig.take(t + 1), p) <==> (key_in(orig.take(t), p) || x@ == p) by {
                if key_in(orig.take(t + 1), p) {
                    let j = choose|j: int| 0 <= j < orig.take(t + 1).len() && #[trigger] orig.take(t + 1)[j]@ == p;
                    if j < t {
                        assert(orig.take(t)[j] == orig.take(t + 1)[j]);
                    }
                }
                if key_in(orig.take(t), p) {
                    let j = choose|j: int| 0 <= j < orig.take(t).len() && #[trigger] orig.take(t)[j]@ == p;
                    assert(orig.take(t + 1)[j] == orig.take(t)[j]);
                }
                if x@ == p {
                    assert(orig.take(t + 1)[t] == x);
                }
            }
        }
        if keep {
            proof {
                if t > 0 {
                    // the previous key sorts before or with x, and differs from it
                    assert(orig[t - 1].key_le(orig[t]));
                    lemma_comps_trichotomy(out0[out0.len() - 1]@, x@);
                    assert forall|a: int| 0 <= a < out0.len() implies comps_lt(out0[a]@, x@) by {
                        if a < out0.len() - 1 {
                            lemma_comps_transitive(out0[a]@, out0[out0.len() - 1]@, x@);
                        }
                    }
                }
            }
            out.push(x);
            proof {
                assert forall|a: int, b: int| 0 <= a < b < out.len() implies comps_lt(out@[a]@, out@[b]@) by {
                    assert(out@[a] == out0[a] || a == out0.len());
                    if b < out0.len() {
                        assert(out@[b] == out0[b]);
                        assert(out@[a] == out0[a]);
                    } else {
                        assert(out@[a] == out0[a]);
                    }
                }
                assert forall|p: Seq<Seq<char>>| key_in(out@, p) <==> (key_in(out0, p) || x@ == p) by {
                    if key_in(out@, p) {
                        let j = choose|j: int| 0 <= j < out@.len() && #[trigger] out@[j]@ == p;
                        if j < out0.len() {
                            assert(out@[j] == out0[j]);
                        }
                    }
                    if key_in(out0, p) {
                        let j = choose|j: int| 0 <= j < out0.len() && #[trigger] out0[j]@ == p;
                        assert(out@[j] == out0[j]);
                    }
                    if x@ == p {
                        assert(out@[out0.len() as int] == x);
                    }
                }
            }
        } else {
            proof {
                assert(key_in(out0, x@)) by {
                    assert(out0[out0.len() - 1]@ == x@);
                }
            }
        }
        proof {
            assert forall|p: Seq<Seq<char>>| key_in(out@, p) <==> key_in(orig.take(t + 1), p) by {
                assert(key_in(out0, p) <==> key_in(orig.take(t), p));
            }
            t = t + 1;
        }
    }
    assert(orig.take(orig.len() as int) =~= orig);
    out
}

pub(crate) proof fn lemma_last_file(files: Seq<FileChange>, filter: Filter, p: Seq<Seq<char>>, n: int)
    ensures
        last_file(files, filter, p, n) matches Some(i) ==> 0 <= i < n && shown(files[i], filter)
            && path_comps(files[i]) == p,
    decreases n,
{
    if n > 0 {
        lemma_last_file(files, filter, p, n - 1);
    }
}

/// The last shown file whose components are `p`.
fn last_file_exec(all: &Vec<Vec<Vec<char>>>, files: &[FileChange], filter: Filter, p: &Vec<Vec<char>>) -> (r: Option<usize>)
    requires
        comps_table(all@, files@),
    ensures
        match r {
            Some(i) => last_file(files@, filter, comps_view(p@), files.len() as int) == Some(i as int),
            None => last_file(files@, filter, comps_view(p@), files.len() as int) is None,
        },
{
    let mut w: Option<usize> = None;
    let mut i: usize = 0;
    while i < files.len()
        invariant
            i <= files.len(),
            comps_table(all@, files@),
            match w {
                Some(j) => last_file(files@, filter, comps_view(p@), i as int) == Some(j as int),
                None => last_file(files@, filter, comps_view(p@), i as int) is None,
            },
        decreases files.len() - i,
    {
        if shown_exec(&files[i], filter) && comps_eq(&all[i], p) {
            w = Some(i);
        }
        i = i + 1;
    }
    w
}

/// For every file, whether it is the one the tree shows for its path.
fn winner_table(all: &Vec<Vec<Vec<char>>>, files: &[FileChange], filter: Filter) -> (r: Vec<bool>)
    requires
        comps_table(all@, files@),
    ensures
        r.len() == files.len(),
        forall|i: int| 0 <= i < files.len() ==> r@[i] == is_winner(files@, filter, i),
{
    let mut r: Vec<bool> = Vec::new();
    let mut i: usize = 0;
    while i < files.len()
        invariant
            i <= files.len(),
            comps_table(all@, files@),
            r.len() == i,
            forall|j: int| 0 <= j < i ==> r@[j] == is_winner(files@, filter, j),
        decreases files.len() - i,
    {
        let w = last_file_exec(all, files, filter, &all[i]);
        assert(comps_view(all@[i as int]@) == path_comps(files@[i as int]));
        let win = match w {
            Some(j) => j == i,
            None => false,
        };
        r.push(win);
        i = i + 1;
    }
    r
}

/// For every file, its number of lines of kind `t`.
fn count_table(files: &[FileChange], t: LineType) -> (r: Vec<usize>)
    requires
        total_count(files@, t, files.len() as int) <= usize::MAX,
    ensures
        r.len() == files.len(),
        forall|i: int| 0 <= i < files.len() ==> r@[i] == count_type(files@[i].hunks@, t),
{
    let mut r: Vec<usize> = Vec::new();
    let mut i: usize = 0;
    while i < files.len()
        invariant
            i <= files.len(),
            total_count(files@, t, files.len() as int) <= usize::MAX,
            r.len() == i,
            forall|j: int| 0 <= j < i ==> r@[j] == count_type(files@[j].hunks@, t),
        decreases files.len() - i,
    {
        proof {
            lemma_total_count_grows(files@, t, i as int, files.len() as int);
        }
        r.push(count_lines(&files[i].hunks, t));
        i = i + 1;
    }
    r
}

/// Lines of kind `t` at or under the node `p`.
fn subtree_sum(
    all: &Vec<Vec<Vec<char>>>,
    files: &[FileChange],
    filter: Filter,
    p: &Vec<Vec<char>>,
    t: LineType,
    winners: &Vec<bool>,
    counts: &Vec<usize>,
) -> (r: usize)
    requires
        comps_table(all@, files@),
        total_count(files@, t, files.len() as int) <= usize::MAX,
        winners.len() == files.len(),
        forall|i: int| 0 <= i < files.len() ==> winners@[i] == is_winner(files@, filter, i),
        counts.len() == files.len(),
        forall|i: int| 0 <= i < files.len() ==> counts@[i] == count_type(files@[i].hunks@, t),
    ensures
        r == subtree_count(files@, filter, comps_view(p@), t, files.len() as int),
{
    let mut acc: usize = 0;
    let mut i: usize = 0;
    while i < files.len()
        invariant
            i <= files.len(),
            comps_table(all@, files@),
            total_count(files@, t, files.len() as int) <= usize::MAX,
            winners.len() == files.len(),
            forall|i: int| 0 <= i < files.len() ==> winners@[i] == is_winner(files@, filter, i),
            counts.len() == files.len(),
            forall|i: int| 0 <= i < files.len() ==> counts@[i] == count_type(files@[i].hunks@, t),
            acc == subtree_count(files@, filter, comps_view(p@), t, i as int),
        decreases files.len() - i,
    {
        proof {
            lemma_subtree_le_total(files@, filter, comps_view(p@), t, i + 1);
            lemma_total_count_grows(files@, t, i + 1, files.len() as int);
        }
        assert(comps_view(all@[i as int]@) == path_comps(files@[i as int]));
        if winners[i] && is_prefix_exec(p, &all[i]) {
            acc = acc + counts[i];
        }
        i = i + 1;
    }
    acc
}

/// The row of the node `u`, when it is listed.
fn node_row(
    u: &NodeKey,
    all: &Vec<Vec<Vec<char>>>,
    files: &[FileChange],
    expanded: &DirSet,
    filter: Filter,
    winners: &Vec<bool>,
    added: &Vec<usize>,
    removed: &Vec<usize>,
) -> (r: Option<TreeEntry>)
    requires
        comps_table(all@, files@),
        is_node(files@, filter, u@),
        counts_fit(files@),
        winners.len() == files.len(),
        forall|i: int| 0 <= i < files.len() ==> winners@[i] == is_winner(files@, filter, i),
        added.len() == files.len(),
        forall|i: int| 0 <= i < files.len() ==> added@[i] == count_type(files@[i].hunks@, LineType::Added),
        removed.len() == files.len(),
        forall|i: int| 0 <= i < files.len() ==> removed@[i] == count_type(files@[i].hunks@, LineType::Removed),
    ensures
        r is Some <==> listed(files@, expanded@, filter, u@),
        r matches Some(e) ==> entry_matches(e, files@, expanded@, filter, u@),
{
    let parts = &u.parts;
    let n = parts.len();
    let ghost p = u@;
    if parts[n - 1].len() == 0 {
        return None;
    }
    // The full path, with every directory above checked for expansion.
    let mut fp: Vec<char> = Vec::new();
    let mut k: usize = 0;
    assert(p.take(0) =~= Seq::<Seq<char>>::empty());
    while k < n
        invariant
            k <= n == parts.len(),
            p == comps_view(parts@),
            p == u@,
            parts == u.parts,
            fp@ == full_path(p.take(k as int)),
            forall|k2: int| 1 <= k2 < k ==> expanded@.contains(#[trigger] full_path(p.take(k2))),
        decreases n - k,
    {
        if k >= 1 {
            let fs = string_of(fp.as_slice());
            if !expanded.contains(fs.as_str()) {
                assert(!expanded@.contains(full_path(p.take(k as int))));
                assert(!listed(files@, expanded@, filter, p));
                return None;
            }
        }
        assert(p.take(k + 1).drop_last() =~= p.take(k as int));
        assert(p.take(k + 1).last() == parts@[k as int]@);
        if fp.len() > 0 {
            fp.push('/');
        }
        let mut m: usize = 0;
        let ghost fp0 = fp@;
        while m < parts[k].len()
            invariant
                k < n == parts.len(),
                m <= parts@[k as int].len(),
                fp@ == fp0 + parts@[k as int]@.take(m as int),
            decreases parts@[k as int].len() - m,
        {
            fp.push(parts[k][m]);
            assert(fp@ =~= fp0 + parts@[k as int]@.take(m + 1));
            m = m + 1;
        }
        assert(parts@[k as int]@.take(m as int) =~= parts@[k as int]@);
        assert(fp@ =~= full_path(p.take(k + 1)));
        k = k + 1;
    }
    assert(p.take(n as int) =~= p);
    assert(p.last() == parts@[n - 1]@);
    let full = string_of(fp.as_slice());
    let name = string_of(parts[n - 1].as_slice());
    let w = last_file_exec(all, files, filter, parts);
    proof {
        lemma_last_file(files@, filter, p, files.len() as int);
    }
    let is_dir = w.is_none();
    let exp = if is_dir {
        expanded.contains(full.as_str())
    } else {
        false
    };
    let status = match w {
        Some(i) => Some(files[i].status),
        None => None,
    };
    let a = subtree_sum(all, files, filter, parts, LineType::Added, winners, added);
    let rm = subtree_sum(all, files, filter, parts, LineType::Removed, winners, removed);
    Some(TreeEntry {
        name,
        full_path: full,
        depth: n - 1,
        is_dir,
        expanded: exp,
        file_index: w,
        status,
        added: a,
        removed: rm,
    })
}

/// Membership of keys survives the sort.
proof fn lemma_sort_keeps_keys(keys: Seq<NodeKey>)
    ensures
        forall|p: Seq<Seq<char>>| key_in(sorted_by_key(keys), p) <==> key_in(keys, p),
{
    let sorted = sorted_by_key(keys);
    lemma_sorted_by_key(keys);
    keys.to_multiset_ensures();
    sorted.to_multiset_ensures();
    assert forall|p: Seq<Seq<char>>| key_in(sorted, p) <==> key_in(keys, p) by {
        if key_in(keys, p) {
            let j = choose|j: int| 0 <= j < keys.len() && #[trigger] keys[j]@ == p;
            assert(keys.contains(keys[j]));
            assert(keys.to_multiset().count(keys[j]) > 0);
            assert(sorted.to_multiset().count(keys[j]) > 0);
            assert(sorted.contains(keys[j]));
            let m = choose|m: int| 0 <= m < sorted.len() && sorted[m] == keys[j];
            assert(sorted[m]@ == p);
        }
        if key_in(sorted, p) {
            let j = choose|j: int| 0 <= j < sorted.len() && #[trigger] sorted[j]@ == p;
            assert(sorted.contains(sorted[j]));
            assert(sorted.to_multiset().count(sorted[j]) > 0);
            assert(keys.to_multiset().count(sorted[j]) > 0);
            assert(keys.contains(sorted[j]));
            let m = choose|m: int| 0 <= m < keys.len() && keys[m] == sorted[j];
            assert(keys[m]@ == p);
        }
    }
}

/// The rows of the file tree for `files` under `filter`, with the
/// directories in `expanded_dirs` open: one row per listed node, in tree
/// order (components by name, a directory before what it holds).
pub fn build_tree_entries(files: &[FileChange], expanded_dirs: &DirSet, filter: Filter) -> (r: Vec<TreeEntry>)
    requires
        counts_fit(files@),
    ensures
        is_tree_of(r@, files@, expanded_dirs@, filter),
        r.len() <= comps_total(files@, files.len() as int),
{
    let all = comps_all(files);
    let keys = collect_node_keys(&all, files, filter);
    let ghost keys_v = keys@;
    let sorted = stable_sort(keys);
    proof {
        lemma_sorted_by_key(keys_v);
        lemma_sort_keeps_keys(keys_v);
    }
    let uniq = dedup_keys(sorted);
    assert(uniq.len() <= keys_v.len());
    let winners = winner_table(&all, files, filter);
    let added = count_table(files, LineType::Added);
    let removed = count_table(files, LineType::Removed);
    let ghost ex = expanded_dirs@;
    let mut out: Vec<TreeEntry> = Vec::new();
    let ghost mut ps: Seq<Seq<Seq<char>>> = Seq::empty();
    let mut t: usize = 0;
    while t < uniq.len()
        invariant
            t <= uniq.len(),
            comps_table(all@, files@),
            counts_fit(files@),
            ex == expanded_dirs@,
            winners.len() == files.len(),
            forall|i: int| 0 <= i < files.len() ==> winners@[i] == is_winner(files@, filter, i),
            added.len() == files.len(),
            forall|i: int| 0 <= i < files.len() ==> added@[i] == count_type(files@[i].hunks@, LineType::Added),
            removed.len() == files.len(),
            forall|i: int| 0 <= i < files.len() ==> removed@[i] == count_type(files@[i].hunks@, LineType::Removed),
            forall|a: int, b: int| 0 <= a < b < uniq.len() ==> comps_lt(uniq@[a]@, uniq@[b]@),
            forall|p: Seq<Seq<char>>| key_in(uniq@, p) <==> key_in(keys_v, p),
            forall|j: int| 0 <= j < keys_v.len() ==> is_node(files@, filter, #[trigger] keys_v[j]@),
            out.len() == ps.len(),
            out.len() <= t,
            uniq.len() <= comps_total(files@, files.len() as int),
            forall|k: int| 0 <= k < ps.len() ==> entry_matches(#[trigger] out@[k], files@, ex, filter, ps[k]),
            forall|a: int, b: int| 0 <= a < b < ps.len() ==> comps_lt(ps[a], ps[b]),
            forall|a: int| #![trigger ps[a]] 0 <= a < ps.len() ==> exists|j: int| 0 <= j < t && #[trigger] uniq@[j]@ == ps[a],
            forall|p: Seq<Seq<char>>| ps.contains(p) <==> (key_in(uniq@.take(t as int), p) && listed(files@, ex, filter, p)),
        decreases uniq.len() - t,
    {
        let u = &uniq[t];
        proof {
            assert(uniq@[t as int]@ == u@);
            assert(key_in(uniq@, u@));
            assert(key_in(keys_v, u@));
            let j = choose|j: int| 0 <= j < keys_v.len() && #[trigger] keys_v[j]@ == u@;
            assert(is_node(files@, filter, keys_v[j]@));
            assert forall|p: Seq<Seq<char>>| key_in(uniq@.take(t + 1), p) <==> (key_in(uniq@.take(t as int), p) || u@ == p) by {
                if key_in(uniq@.take(t + 1), p) {
                    let j = choose|j: int| 0 <= j < uniq@.take(t + 1).len() && #[trigger] uniq@.take(t + 1)[j]@ == p;
                    if j < t {
                        assert(uniq@.take(t as int)[j] == uniq@.take(t + 1)[j]);
                    }
                }
                if key_in(uniq@.take(t as int), p) {
                    let j = choose|j: int| 0 <= j < uniq@.take(t as int).len() && #[trigger] uniq@.take(t as int)[j]@ == p;
                    assert(uniq@.take(t + 1)[j] == uniq@.take(t as int)[j]);
                }
                if u@ == p {
                    assert(uniq@.take(t + 1)[t as int] == uniq@[t as int]);
                }
            }
        }
        let row = node_row(u, &all, files, expanded_dirs, filter, &winners, &added, &removed);
        match row {
            Some(e) => {
                let ghost ps0 = ps;
                let ghost out0 = out@;
                out.push(e);
                proof {
                    ps = ps.push(u@);
                    assert forall|k: int| 0 <= k < ps.len() implies entry_matches(#[trigger] out@[k], files@, ex, filter, ps[k]) by {
                        if k < ps0.len() {
                            assert(out@[k] == out0[k]);
                        }
                    }
                    assert forall|a: int| 0 <= a < ps0.len() implies comps_lt(ps0[a], u@) by {
                        let j = choose|j: int| 0 <= j < t && #[trigger] uniq@[j]@ == ps0[a];
                    }
                    assert forall|a: int, b: int| 0 <= a < b < ps.len() implies comps_lt(ps[a], ps[b]) by {
                        if b < ps0.len() {
                        } else {
                            assert(ps[a] == ps0[a]);
                        }
                    }
                    assert forall|a: int| #![trigger ps[a]] 0 <= a < ps.len() implies exists|j: int| 0 <= j < t + 1 && #[trigger] uniq@[j]@ == ps[a] by {
                        if a < ps0.len() {
                            let j = choose|j: int| 0 <= j < t && #[trigger] uniq@[j]@ == ps0[a];
                            assert(uniq@[j]@ == ps[a]);
                        } else {
                            assert(uniq@[t as int]@ == ps[a]);
                        }
                    }
                    assert forall|p: Seq<Seq<char>>| ps.contains(p) <==> (ps0.contains(p) || p == u@) by {
                        if ps.contains(p) {
                            let a = choose|a: int| 0 <= a < ps.len() && ps[a] == p;
                            if a < ps0.len() {
                                assert(ps0[a] == p);
                            }
                        }
                        if ps0.contains(p) {
                            let a = choose|a: int| 0 <= a < ps0.len() && ps0[a] == p;
                            assert(ps[a] == p);
                        }
                        if p == u@ {
                            assert(ps[ps0.len() as int] == p);
                        }
                    }
                    assert(listed(files@, ex, filter, u@));
                    assert forall|p: Seq<Seq<char>>| ps.contains(p) <==> (key_in(uniq@.take(t + 1), p) && listed(files@, ex, filter, p)) by {
                        assert(ps.contains(p) <==> (ps0.contains(p) || p == u@));
                        assert(ps0.contains(p) <==> (key_in(uniq@.take(t as int), p) && listed(files@, ex, filter, p)));
                    }
                }
            },
            None => {
                proof {
                    assert(!listed(files@, ex, filter, u@));
                    assert forall|p: Seq<Seq<char>>| ps.contains(p) <==> (key_in(uniq@.take(t + 1), p) && listed(files@, ex, filter, p)) by {
                        assert(ps.contains(p) <==> (key_in(uniq@.take(t as int), p) && listed(files@, ex, filter, p)));
                    }
                }
            },
        }
        t = t + 1;
    }
    proof {
        assert(uniq@.take(uniq.len() as int) =~= uniq@);
        assert forall|p: Seq<Seq<char>>| ps.contains(p) <==> listed(files@, ex, filter, p) by {
            if listed(files@, ex, filter, p) {
                let i = choose|i: int|
                    0 <= i < files@.len() && shown(files@[i], filter) && is_prefix(p, #[trigger] path_comps(files@[i]));
                assert(path_comps(files@[i]).take(p.len() as int) == p);
                assert(key_in(keys_v, path_comps(files@[i]).take(p.len() as int)));
            }
        }
        assert(tree_listing(files@, expanded_dirs@, filter, ps));
        assert(out@.len() == ps.len() && forall|k: int|
            0 <= k < ps.len() ==> entry_matches(#[trigger] out@[k], files@, expanded_dirs@, filter, ps[k]));
    }
    out
}

/// Items of `ps` are strictly increasing in tree order.
pub open spec fn strictly_ordered(ps: Seq<Seq<Seq<char>>>) -> bool {
    forall|a: int, b: int| 0 <= a < b < ps.len() ==> comps_lt(ps[a], ps[b])
}

proof fn lemma_ordered_unique(ps: Seq<Seq<Seq<char>>>, qs: Seq<Seq<Seq<char>>>)
    requires
        strictly_ordered(ps),
        strictly_ordered(qs),
        forall|x: Seq<Seq<char>>| ps.contains(x) <==> qs.contains(x),
    ensures
        ps == qs,
    decreases ps.len(),
{
    if ps.len() == 0 {
        if qs.len() > 0 {
            assert(qs.contains(qs[0]));
        }
        assert(ps =~= qs);
    } else {
        assert(ps.contains(ps[0]));
        assert(qs.len() > 0);
        assert(qs.contains(qs[0]));
        let j = choose|j: int| 0 <= j < qs.len() && qs[j] == ps[0];
        let i = choose|i: int| 0 <= i < ps.len() && ps[i] == qs[0];
        lemma_comps_trichotomy(ps[0], ps[i]);
        lemma_comps_trichotomy(qs[0], qs[j]);
        if j > 0 && i > 0 {
            assert(comps_lt(ps[0], ps[i]));
            assert(comps_lt(qs[0], qs[j]));
        }
        assert(ps[0] == qs[0]);
        let pt = ps.drop_first();
        let qt = qs.drop_first();
        assert forall|x: Seq<Seq<char>>| pt.contains(x) <==> qt.contains(x) by {
            if pt.contains(x) {
                let a = choose|a: int| 0 <= a < pt.len() && pt[a] == x;
                assert(ps[a + 1] == x);
                assert(comps_lt(ps[0], ps[a + 1]));
                lemma_comps_trichotomy(ps[0], x);
                assert(qs.contains(x));
                let b = choose|b: int| 0 <= b < qs.len() && qs[b] == x;
                assert(b != 0);
                assert(qt[b - 1] == x);
            }
            if qt.contains(x) {
                let a = choose|a: int| 0 <= a < qt.len() && qt[a] == x;
                assert(qs[a + 1] == x);
                assert(comps_lt(qs[0], qs[a + 1]));
                lemma_comps_trichotomy(qs[0], x);
                assert(ps.contains(x));
                let b = choose|b: int| 0 <= b < ps.len() && ps[b] == x;
                assert(b != 0);
                assert(pt[b - 1] == x);
            }
        }
        assert forall|a: int, b: int| 0 <= a < b < pt.len() implies comps_lt(pt[a], pt[b]) by {
            assert(comps_lt(ps[a + 1], ps[b + 1]));
        }
        assert forall|a: int, b: int| 0 <= a < b < qt.len() implies comps_lt(qt[a], qt[b]) by {
            assert(comps_lt(qs[a + 1], qs[b + 1]));
        }
        lemma_ordered_unique(pt, qt);
        assert(ps =~= seq![ps[0]] + pt);
        assert(qs =~= seq![qs[0]] + qt);
    }
}

/// The listing of a tree is unique: the rows that `build_tree_entries`
/// returns are determined by the files, the expanded directories and the
/// filter.
pub proof fn law_tree_listing_unique(
    files: Seq<FileChange>,
    expanded: Set<Seq<char>>,
    filter: Filter,
    ps: Seq<Seq<Seq<char>>>,
    qs: Seq<Seq<Seq<char>>>,
)
    requires
        tree_listing(files, expanded, filter, ps),
        tree_listing(files, expanded, filter, qs),
    ensures
        ps == qs,
{
    lemma_ordered_unique(ps, qs);
}

/// A file row and a directory row are told apart by their file index, and a
/// row's depth is the number of directories above it.
pub proof fn law_row_kind(e: TreeEntry, files: Seq<FileChange>, expanded: Set<Seq<char>>, filter: Filter, p: Seq<Seq<char>>)
    requires
        entry_matches(e, files, expanded, filter, p),
        listed(files, expanded, filter, p),
        files.len() <= usize::MAX,
    ensures
        e.is_dir <==> e.file_index is None,
        e.depth + 1 == p.len(),
        e.expanded ==> e.is_dir,
        e.file_index matches Some(i) ==> i < files.len() && shown(files[i as int], filter)
            && path_comps(files[i as int]) == p,
{
    lemma_last_file(files, filter, p, files.len() as int);
}

/// Every file row of a tree names an existing file.
pub proof fn lemma_tree_rows_index(rows: Seq<TreeEntry>, files: Seq<FileChange>, expanded: Set<Seq<char>>, filter: Filter)
    requires
        is_tree_of(rows, files, expanded, filter),
        files.len() <= usize::MAX,
    ensures
        forall|k: int| 0 <= k < rows.len() ==> ((#[trigger] rows[k]).file_index matches Some(i) ==> i < files.len()),
{
    let ps = choose|ps: Seq<Seq<Seq<char>>>|
        tree_listing(files, expanded, filter, ps) && rows.len() == ps.len() && forall|k: int|
            0 <= k < ps.len() ==> entry_matches(#[trigger] rows[k], files, expanded, filter, ps[k]);
    assert forall|k: int| 0 <= k < rows.len() implies ((#[trigger] rows[k]).file_index matches Some(i) ==> i < files.len()) by {
        assert(entry_matches(rows[k], files, expanded, filter, ps[k]));
        lemma_last_file(files, filter, ps[k], files.len() as int);
    }
}

/// The rows `e` and `g` show a node alike, but perhaps for whether it is
/// open.
pub open spec fn same_row(e: TreeEntry, g: TreeEntry) -> bool {
    &&& e.name@ == g.name@
    &&& e.full_path@ == g.full_path@
    &&& e.depth == g.depth
    &&& e.is_dir == g.is_dir
    &&& e.file_index == g.file_index
    &&& e.status == g.status
    &&& e.added == g.added
    &&& e.removed == g.removed
}

/// The rows `rows1` stand, alike and in order, at the increasing places
/// `m` of `rows2`, and an open directory among them stays open.
pub open spec fn rows_placed(rows1: Seq<TreeEntry>, rows2: Seq<TreeEntry>, m: Seq<int>) -> bool {
    &&& m.len() == rows1.len()
    &&& forall|k: int|
        0 <= k < m.len() ==> 0 <= #[trigger] m[k] < rows2.len() && same_row(rows1[k], rows2[m[k]]) && (
        rows1[k].expanded ==> rows2[m[k]].expanded)
    &&& forall|a: int, b: int| 0 <= a < b < m.len() ==> #[trigger] m[a] < #[trigger] m[b]
}

/// Expanding more directories only inserts rows: the rows of the tree with
/// fewer directories open appear, in the same order and alike, among the
/// rows with more open, and an open directory stays open.
pub proof fn law_expanding_inserts_rows(
    rows1: Seq<TreeEntry>,
    rows2: Seq<TreeEntry>,
    files: Seq<FileChange>,
    e1: Set<Seq<char>>,
    e2: Set<Seq<char>>,
    filter: Filter,
)
    requires
        e1.subset_of(e2),
        is_tree_of(rows1, files, e1, filter),
        is_tree_of(rows2, files, e2, filter),
    ensures
        exists|m: Seq<int>| #[trigger] rows_placed(rows1, rows2, m),
{
    let ps = choose|ps: Seq<Seq<Seq<char>>>|
        tree_listing(files, e1, filter, ps) && rows1.len() == ps.len() && forall|k: int|
            0 <= k < ps.len() ==> entry_matches(#[trigger] rows1[k], files, e1, filter, ps[k]);
    let qs = choose|qs: Seq<Seq<Seq<char>>>|
        tree_listing(files, e2, filter, qs) && rows2.len() == qs.len() && forall|k: int|
            0 <= k < qs.len() ==> entry_matches(#[trigger] rows2[k], files, e2, filter, qs[k]);
    assert forall|k: int| 0 <= k < ps.len() implies qs.contains(#[trigger] ps[k]) by {
        assert(ps.contains(ps[k]));
        let p = ps[k];
        assert(listed(files, e1, filter, p));
        assert forall|i: int| 1 <= i < p.len() implies e2.contains(#[trigger] full_path(p.take(i))) by {
            assert(e1.contains(full_path(p.take(i))));
        }
        assert(listed(files, e2, filter, p));
    }
    let m = Seq::new(ps.len(), |k: int| choose|j: int| 0 <= j < qs.len() && qs[j] == ps[k]);
    assert forall|k: int| 0 <= k < m.len() implies 0 <= #[trigger] m[k] < rows2.len() && qs[m[k]] == ps[k] && same_row(
        rows1[k],
        rows2[m[k]],
    ) && (rows1[k].expanded ==> rows2[m[k]].expanded) by {
        assert(qs.contains(ps[k]));
        let j = m[k];
        assert(entry_matches(rows1[k], files, e1, filter, ps[k]));
        assert(entry_matches(rows2[j], files, e2, filter, qs[j]));
    }
    assert forall|a: int, b: int| 0 <= a < b < m.len() implies #[trigger] m[a] < #[trigger] m[b] by {
        assert(comps_lt(ps[a], ps[b]));
        lemma_comps_trichotomy(ps[a], ps[b]);
        assert(qs[m[a]] == ps[a] && qs[m[b]] == ps[b]);
        if m[a] > m[b] {
            assert(comps_lt(qs[m[b]], qs[m[a]]));
        }
    }
    assert(rows_placed(rows1, rows2, m));
}

} // verus!
