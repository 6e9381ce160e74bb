//! Search over the changed files: by file name, by diff content (optionally
//! restricted by a glob), and by regular expression over file contents.

use vstd::prelude::*;
use crate::text::{chars_of, contains, contains_exec, line_spans, lines, span_text, spans_give, spans_in, string_of_range};
use crate::order::{SortKey, lex_le, lex_lt, lemma_lex_transitive, lemma_lex_trichotomy, str_lt, sorted_by_key, stable_sort};
use crate::git::{FileChange, Hunk, HunkLine};
use crate::view::pieces::spans_on_chars;

pub mod glob;

use glob::glob_regex_source;

verus! {

// ---------------------------------------------------------------------------
// The outside calls
// ---------------------------------------------------------------------------

#[verifier::external_type_specification]
#[verifier::external_body]
pub struct ExRegexError(regex::Error);

/// Whether `regex::Regex::new` accepts the pattern text (syntax and default
/// size limit); a function of the text alone.
pub uninterp spec fn regex_compiles(pattern: Seq<char>) -> bool;

/// What `regex::Regex::is_match` answers for a regex compiled from
/// `pattern` on `text`.
pub uninterp spec fn regex_is_match(pattern: Seq<char>, text: Seq<char>) -> bool;

/// The byte ranges `(start, end)` of the matches, in order, that
/// `regex::Regex::find_iter` yields for a regex compiled from `pattern` on
/// `text`.
pub uninterp spec fn regex_find_spans(pattern: Seq<char>, text: Seq<char>) -> Seq<(usize, usize)>;

/// What `str::to_lowercase` gives for `s` (Unicode lowercase mapping, which
/// does not depend on the locale).
pub uninterp spec fn lowercase(s: Seq<char>) -> Seq<char>;

/// A compiled regular expression. Its field is hidden from verified code:
/// only `regex_new` builds one, and it names the text the regex was
/// compiled from by `pattern_source`.
#[verifier::external_body]
pub struct CompiledPattern {
    regex: regex::Regex,
}

/// The text that the regex of `p` was compiled from.
pub uninterp spec fn pattern_source(p: CompiledPattern) -> Seq<char>;

impl CompiledPattern {
    /// The text the pattern was compiled from.
    pub open spec fn source(&self) -> Seq<char> {
        pattern_source(*self)
    }

    /// Whether the pattern matches somewhere in `text`.
    pub fn is_match(&self, text: &str) -> (b: bool)
        ensures
            b == regex_is_match(self.source(), text@),
    {
        pattern_is_match(self, text)
    }

    /// The text the pattern was compiled from.
    pub fn as_str(&self) -> (r: &str)
        ensures
            r@ == self.source(),
    {
        pattern_text(self)
    }
}

/// Calls `regex::Regex::as_str`, which gives back the text the regex was
/// compiled from.
#[verifier::external_body]
fn pattern_text(p: &CompiledPattern) -> (r: &str)
    ensures
        r@ == pattern_source(*p),
{
    p.regex.as_str()
}

/// Calls `regex::Regex::new` and keeps the regex it gives; the contract
/// claims that it succeeds exactly when the text compiles, and that the
/// pattern it returns was compiled from `pattern`.
#[verifier::external_body]
pub(crate) fn regex_new(pattern: &str) -> (r: Result<CompiledPattern, regex::Error>)
    ensures
        r is Ok <==> regex_compiles(pattern@),
        r matches Ok(p) ==> pattern_source(p) == pattern@,
{
    regex::Regex::new(pattern).map(|regex| CompiledPattern { regex })
}

/// Calls `str::to_lowercase`; the contract names its result.
#[verifier::external_body]
fn to_lowercase(s: &str) -> (r: String)
    ensures
        r@ == lowercase(s@),
{
    s.to_lowercase()
}

/// Compiles `pattern`.
pub fn compile(pattern: &str) -> (r: Result<CompiledPattern, regex::Error>)
    ensures
        r is Ok <==> regex_compiles(pattern@),
        r matches Ok(p) ==> p.source() == pattern@,
{
    regex_new(pattern)
}

/// The characters that `regex::escape` puts a backslash before.
pub open spec fn escaped_by_regex(c: char) -> bool {
    c == '\\' || c == '.' || c == '+' || c == '*' || c == '?' || c == '(' || c == ')' || c == '|' || c == '['
        || c == ']' || c == '{' || c == '}' || c == '^' || c == '$' || c == '#' || c == '&' || c == '-'
        || c == '~'
}

/// `s` with a backslash before each character that `regex::escape` escapes.
pub open spec fn regex_escaped(s: Seq<char>) -> Seq<char>
    decreases s.len(),
{
    if s.len() == 0 {
        Seq::empty()
    } else {
        regex_escaped(s.drop_last()) + if escaped_by_regex(s.last()) {
            seq!['\\', s.last()]
        } else {
            seq![s.last()]
        }
    }
}

/// Calls `regex::escape`, which puts a backslash before each of its meta
/// characters and copies the others, in order.
#[verifier::external_body]
pub(crate) fn regex_escape(s: &str) -> (r: String)
    ensures
        r@ == regex_escaped(s@),
{
    regex::escape(s)
}

/// Calls `regex::Regex::is_match` on the compiled pattern; the contract
/// names its result by the pattern's text.
#[verifier::external_body]
pub(crate) fn pattern_is_match(p: &CompiledPattern, text: &str) -> (b: bool)
    ensures
        b == regex_is_match(p.source(), text@),
{
    p.regex.is_match(text)
}

/// Calls `regex::Regex::find_iter` on the compiled pattern and collects the
/// byte ranges of the matches; the contract names them by the pattern's
/// text, and claims what the crate documents of them: successive matches
/// that do not overlap, each starting no later than it ends, at offsets on
/// character boundaries.
#[verifier::external_body]
pub(crate) fn pattern_find_spans(p: &CompiledPattern, text: &str) -> (r: Vec<(usize, usize)>)
    ensures
        r@ == regex_find_spans(p.source(), text@),
        spans_on_chars(text@, r@),
{
    p.regex.find_iter(text).map(|m| (m.start(), m.end())).collect()
}

// ---------------------------------------------------------------------------
// Results
// ---------------------------------------------------------------------------

/// A hit of a search: a file and, for content searches, the diff line.
#[derive(Debug, Clone)]
pub struct SearchResult {
    pub file_index: usize,
    pub line_number: Option<usize>,
}

impl View for SearchResult {
    type V = (usize, Option<usize>);

    open spec fn view(&self) -> (usize, Option<usize>) {
        (self.file_index, self.line_number)
    }
}

/// The views of a sequence of search results.
pub open spec fn results_view(rs: Seq<SearchResult>) -> Seq<(usize, Option<usize>)> {
    rs.map_values(|r: SearchResult| r@)
}

/// A match of the global search: the file, the 1-based line number, the
/// whole line, and the byte range of the match within it.
#[derive(Debug, Clone)]
pub struct GlobalMatch {
    pub file_path: String,
    pub line_number: usize,
    pub content: String,
    pub match_start: usize,
    pub match_end: usize,
}

// ---------------------------------------------------------------------------
// File name search
// ---------------------------------------------------------------------------

/// The files whose lowercased path contains the lowercased query, in order.
pub open spec fn filename_results(files: Seq<FileChange>, q: Seq<char>) -> Seq<(usize, Option<usize>)>
    decreases files.len(),
{
    if files.len() == 0 {
        Seq::empty()
    } else {
        let prev = filename_results(files.drop_last(), q);
        if contains(lowercase(files.last().path@), lowercase(q)) {
            prev.push(((files.len() - 1) as usize, None))
        } else {
            prev
        }
    }
}

/// Finds the files whose path contains `query`, ignoring case.
pub fn search_filename(files: &[FileChange], query: &str) -> (r: Vec<SearchResult>)
    ensures
        results_view(r@) == filename_results(files@, query@),
{
    let ql = to_lowercase(query);
    let qv = chars_of(ql.as_str());
    let mut out: Vec<SearchResult> = Vec::new();
    let mut i: usize = 0;
    assert(files@.take(0) =~= Seq::<FileChange>::empty());
    assert(results_view(out@) =~= Seq::empty());
    while i < files.len()
        invariant
            i <= files.len(),
            qv@ == lowercase(query@),
            results_view(out@) == filename_results(files@.take(i as int), query@),
        decreases files.len() - i,
    {
        let pl = to_lowercase(files[i].path.as_str());
        let pv = chars_of(pl.as_str());
        assert(files@.take(i + 1).drop_last() =~= files@.take(i as int));
        assert(files@.take(i + 1).last() == files@[i as int]);
        if contains_exec(pv.as_slice(), qv.as_slice()) {
            let ghost prev = results_view(out@);
            out.push(SearchResult { file_index: i, line_number: None });
            assert(results_view(out@) =~= prev.push((i, None)));
        }
        i = i + 1;
    }
    assert(files@.take(files.len() as int) =~= files@);
    out
}

// ---------------------------------------------------------------------------
// Diff content search
// ---------------------------------------------------------------------------

/// The texts of the diff lines of `hs`, as the diff view lists them: each
/// hunk's header, then its lines.
pub open spec fn hunk_texts(hs: Seq<Hunk>) -> Seq<Seq<char>>
    decreases hs.len(),
{
    if hs.len() == 0 {
        Seq::empty()
    } else {
        hunk_texts(hs.drop_last()) + seq![hs.last().header@] + hs.last().lines@.map_values(
            |l: HunkLine| l.content@,
        )
    }
}

/// The diff line indices `j` of `texts` whose lowercased text contains
/// `lq`, as hits in file `i`.
pub open spec fn text_hits(i: usize, texts: Seq<Seq<char>>, lq: Seq<char>) -> Seq<(usize, Option<usize>)>
    decreases texts.len(),
{
    if texts.len() == 0 {
        Seq::empty()
    } else {
        let prev = text_hits(i, texts.drop_last(), lq);
        if contains(lowercase(texts.last()), lq) {
            prev.push((i, Some((texts.len() - 1) as usize)))
        } else {
            prev
        }
    }
}

/// The file `path` passes the glob `filter`: there is none, or it does not
/// compile, or its regular expression matches the path.
pub open spec fn passes_filter(filter: Option<Seq<char>>, path: Seq<char>) -> bool {
    match filter {
        None => true,
        Some(g) => !regex_compiles(glob_regex_source(g)) || regex_is_match(
            glob_regex_source(g),
            path,
        ),
    }
}

/// The hits of a content search for `q` over `files`, file by file.
pub open spec fn content_results(files: Seq<FileChange>, q: Seq<char>, filter: Option<Seq<char>>) -> Seq<(usize, Option<usize>)>
    decreases files.len(),
{
    if files.len() == 0 {
        Seq::empty()
    } else {
        let prev = content_results(files.drop_last(), q, filter);
        if passes_filter(filter, files.last().path@) {
            prev + text_hits(
                (files.len() - 1) as usize,
                hunk_texts(files.last().hunks@),
                lowercase(q),
            )
        } else {
            prev
        }
    }
}

/// Every file's diff lines can be counted, within the bound on lengths.
pub open spec fn diffs_fit(files: Seq<FileChange>) -> bool {
    forall|i: int| 0 <= i < files.len() ==> hunk_texts(#[trigger] files[i].hunks@).len() <= isize::MAX
}

pub(crate) proof fn lemma_hunk_texts_grow(hs: Seq<Hunk>, k: int)
    requires
        0 <= k <= hs.len(),
    ensures
        hunk_texts(hs.take(k)).len() <= hunk_texts(hs).len(),
    decreases hs.len(),
{
    if k < hs.len() {
        assert(hs.drop_last().take(k) =~= hs.take(k));
        lemma_hunk_texts_grow(hs.drop_last(), k);
    } else {
        assert(hs.take(k) =~= hs);
    }
}

/// The hits in one file's diff.
fn file_hits(i: usize, hunks: &Vec<Hunk>, qv: &Vec<char>, out: &mut Vec<SearchResult>)
    requires
        hunk_texts(hunks@).len() <= usize::MAX,
    ensures
        results_view(final(out)@) == results_view(old(out)@) + text_hits(i, hunk_texts(hunks@), qv@),
{
    let ghost start = results_view(out@);
    let mut j: usize = 0;
    let mut h: usize = 0;
    assert(hunks@.take(0) =~= Seq::<Hunk>::empty());
    assert(start =~= start + text_hits(i, Seq::empty(), qv@));
    while h < hunks.len()
        invariant
            h <= hunks.len(),
            hunk_texts(hunks@).len() <= usize::MAX,
            j == hunk_texts(hunks@.take(h as int)).len(),
            results_view(out@) == start + text_hits(i, hunk_texts(hunks@.take(h as int)), qv@),
        decreases hunks.len() - h,
    {
        let hunk = &hunks[h];
        let ghost before = hunk_texts(hunks@.take(h as int));
        proof {
            assert(hunks@.take(h + 1).drop_last() =~= hunks@.take(h as int));
            assert(hunks@.take(h + 1).last() == hunk);
            lemma_hunk_texts_grow(hunks@, h + 1);
        }
        let ghost after = hunk_texts(hunks@.take(h + 1));
        let ghost lines_v = hunk.lines@.map_values(|l: HunkLine| l.content@);
        assert(after == before + seq![hunk.header@] + lines_v);
        // The header.
        let hl = to_lowercase(hunk.header.as_str());
        let hv = chars_of(hl.as_str());
        assert((before + seq![hunk.header@]).drop_last() =~= before);
        if contains_exec(hv.as_slice(), qv.as_slice()) {
            let ghost prev = results_view(out@);
            out.push(SearchResult { file_index: i, line_number: Some(j) });
            assert(results_view(out@) =~= prev.push((i, Some(j))));
        }
        assert(results_view(out@) =~= start + text_hits(i, before + seq![hunk.header@], qv@));
        j = j + 1;
        // The lines.
        let mut k: usize = 0;
        assert(lines_v.take(0) =~= Seq::<Seq<char>>::empty());
        assert(before + seq![hunk.header@] + lines_v.take(0) =~= before + seq![hunk.header@]);
        while k < hunk.lines.len()
            invariant
                k <= hunk.lines.len(),
                hunk == hunks@[h as int],
                lines_v == hunk.lines@.map_values(|l: HunkLine| l.content@),
                after == before + seq![hunk.header@] + lines_v,
                after.len() <= usize::MAX,
                j == before.len() + 1 + k,
                results_view(out@) == start + text_hits(
                    i,
                    before + seq![hunk.header@] + lines_v.take(k as int),
                    qv@,
                ),
            decreases hunk.lines.len() - k,
        {
            let ghost cur = before + seq![hunk.header@] + lines_v.take(k as int);
            let ghost nxt = before + seq![hunk.header@] + lines_v.take(k + 1);
            assert(nxt.drop_last() =~= cur);
            assert(nxt.last() == hunk.lines@[k as int].content@);
            let ll = to_lowercase(hunk.lines[k].content.as_str());
            let lv = chars_of(ll.as_str());
            if contains_exec(lv.as_slice(), qv.as_slice()) {
                let ghost prev = results_view(out@);
                out.push(SearchResult { file_index: i, line_number: Some(j) });
                assert(results_view(out@) =~= prev.push((i, Some(j))));
            }
            assert(results_view(out@) =~= start + text_hits(i, nxt, qv@));
            assert(j < after.len());
            j = j + 1;
            k = k + 1;
        }
        assert(lines_v.take(hunk.lines.len() as int) =~= lines_v);
        h = h + 1;
    }
    assert(hunks@.take(hunks.len() as int) =~= hunks@);
}

/// Compiles the glob of a content search, if any.
fn compile_glob(pattern: &str) -> (r: Option<CompiledPattern>)
    ensures
        r is Some <==> regex_compiles(glob_regex_source(pattern@)),
        r matches Some(p) ==> p.source() == glob_regex_source(pattern@),
{
    match glob::glob_to_regex(pattern) {
        Ok(p) => Some(p),
        Err(_) => None,
    }
}

/// Finds the diff lines (headers included) that contain `query`, ignoring
/// case, in the files whose path passes the glob `file_pattern`.
pub fn search_content_filtered(files: &[FileChange], query: &str, file_pattern: Option<&str>) -> (r: Vec<SearchResult>)
    requires
        diffs_fit(files@),
    ensures
        results_view(r@) == content_results(
            files@,
            query@,
            match file_pattern {
                Some(g) => Some(g@),
                None => None,
            },
        ),
{
    let ghost filter = match file_pattern {
        Some(g) => Some(g@),
        None => None,
    };
    let ql = to_lowercase(query);
    let qv = chars_of(ql.as_str());
    let file_regex = match file_pattern {
        Some(p) => compile_glob(p),
        None => None,
    };
    let mut out: Vec<SearchResult> = Vec::new();
    let mut i: usize = 0;
    assert(files@.take(0) =~= Seq::<FileChange>::empty());
    assert(results_view(out@) =~= Seq::empty());
    while i < files.len()
        invariant
            i <= files.len(),
            diffs_fit(files@),
            qv@ == lowercase(query@),
            filter == match file_pattern {
                Some(g) => Some(g@),
                None => None::<Seq<char>>,
            },
            file_pattern is None ==> file_regex is None,
            file_pattern matches Some(g) ==> (file_regex is Some <==> regex_compiles(
                glob_regex_source(g@),
            )),
            file_pattern matches Some(g) ==> (file_regex matches Some(p) ==> p.source()
                == glob_regex_source(g@)),
            results_view(out@) == content_results(files@.take(i as int), query@, filter),
        decreases files.len() - i,
    {
        let f = &files[i];
        assert(files@.take(i + 1).drop_last() =~= files@.take(i as int));
        assert(files@.take(i + 1).last() == f);
        let pass = match &file_regex {
            Some(re) => pattern_is_match(re, f.path.as_str()),
            None => true,
        };
        assert(pass == passes_filter(filter, f.path@));
        if pass {
            file_hits(i, &f.hunks, &qv, &mut out);
        }
        i = i + 1;
    }
    assert(files@.take(files.len() as int) =~= files@);
    out
}

// ---------------------------------------------------------------------------
// Global search
// ---------------------------------------------------------------------------

/// A directory entry that the walk of the work tree passes over: hidden
/// entries and build output.
pub open spec fn skipped_in_walk(name: Seq<char>) -> bool {
    (name.len() > 0 && name[0] == '.') || name == "target"@
}

/// Whether the walk of the work tree passes over the entry `name` (see
/// `skipped_in_walk`).
pub fn skip_in_walk(name: &str) -> (r: bool)
    ensures
        r == skipped_in_walk(name@),
{
    let v = chars_of(name);
    if v.len() > 0 && v[0] == '.' {
        return true;
    }
    crate::app::tree::str_eq(name, "target")
}

/// The view of a global match: path, line number, line, start, end.
pub open spec fn match_view(m: GlobalMatch) -> (Seq<char>, usize, Seq<char>, usize, usize) {
    (m.file_path@, m.line_number, m.content@, m.match_start, m.match_end)
}

/// The matches of `pattern` on one line (`line_no` counted from 1).
pub open spec fn line_matches(path: Seq<char>, line_no: usize, line: Seq<char>, pattern: Seq<char>) -> Seq<(Seq<char>, usize, Seq<char>, usize, usize)> {
    regex_find_spans(pattern, line).map_values(
        |sp: (usize, usize)| (path, line_no, line, sp.0, sp.1),
    )
}

/// The matches of `pattern` over the lines `ls` of a file, line by line.
pub open spec fn content_matches(path: Seq<char>, ls: Seq<Seq<char>>, pattern: Seq<char>) -> Seq<(Seq<char>, usize, Seq<char>, usize, usize)>
    decreases ls.len(),
{
    if ls.len() == 0 {
        Seq::empty()
    } else {
        content_matches(path, ls.drop_last(), pattern) + line_matches(
            path,
            ls.len() as usize,
            ls.last(),
            pattern,
        )
    }
}

/// Every match of `pattern` in the text `content` of the file `path`, line
/// by line and, within a line, in the order the regex finds them.
pub fn search_file_content(path: &str, content: &str, pattern: &CompiledPattern) -> (r: Vec<GlobalMatch>)
    ensures
        r@.map_values(|m: GlobalMatch| match_view(m)) == content_matches(
            path@,
            lines(content@),
            pattern.source(),
        ),
{
    let v = chars_of(content);
    let spans = line_spans(v.as_slice());
    let ghost ls = lines(v@);
    let mut out: Vec<GlobalMatch> = Vec::new();
    let mut k: usize = 0;
    assert(ls.take(0) =~= Seq::<Seq<char>>::empty());
    assert(out@.map_values(|m: GlobalMatch| match_view(m)) =~= Seq::empty());
    while k < spans.len()
        invariant
            k <= spans.len(),
            spans_give(v@, spans@, ls),
            out@.map_values(|m: GlobalMatch| match_view(m)) == content_matches(
                path@,
                ls.take(k as int),
                pattern.source(),
            ),
        decreases spans.len() - k,
    {
        let (a, b) = spans[k];
        proof {
            assert(spans_in(v@, spans@) ==> spans@[k as int].0 <= spans@[k as int].1 <= v@.len());
            assert(spans@.map_values(|sp: (usize, usize)| span_text(v@, sp))[k as int] == ls[k as int]);
            assert(ls.take(k + 1).drop_last() =~= ls.take(k as int));
            assert(ls.take(k + 1).last() == ls[k as int]);
        }
        let line = string_of_range(v.as_slice(), a, b);
        let found = pattern_find_spans(pattern, line.as_str());
        let ghost base = out@.map_values(|m: GlobalMatch| match_view(m));
        let ghost want = line_matches(path@, (k + 1) as usize, line@, pattern.source());
        let mut t: usize = 0;
        assert(base + want.take(0) =~= base);
        while t < found.len()
            invariant
                t <= found.len(),
                found@ == regex_find_spans(pattern.source(), line@),
                want == line_matches(path@, (k + 1) as usize, line@, pattern.source()),
                k < spans.len(),
                out@.map_values(|m: GlobalMatch| match_view(m)) == base + want.take(t as int),
            decreases found.len() - t,
        {
            let (s, e) = found[t];
            let ghost prev = out@.map_values(|m: GlobalMatch| match_view(m));
            let m = GlobalMatch {
                file_path: path.to_owned(),
                line_number: k + 1,
                content: line.clone(),
                match_start: s,
                match_end: e,
            };
            out.push(m);
            assert(out@.map_values(|m: GlobalMatch| match_view(m)) =~= prev.push(match_view(m)));
            assert(base + want.take(t + 1) =~= base + want.take(t as int) + seq![want[t as int]]);
            t = t + 1;
        }
        assert(want.take(found.len() as int) =~= want);
        k = k + 1;
    }
    assert(ls.take(spans.len() as int) =~= ls);
    out
}

impl SortKey for GlobalMatch {
    open spec fn key_le(self, other: GlobalMatch) -> bool {
        lex_lt(self.file_path@, other.file_path@) || (self.file_path@ == other.file_path@
            && self.line_number <= other.line_number)
    }

    proof fn key_le_total(a: GlobalMatch, b: GlobalMatch) {
        lemma_lex_trichotomy(a.file_path@, b.file_path@);
    }

    proof fn key_le_transitive(a: GlobalMatch, b: GlobalMatch, c: GlobalMatch) {
        if lex_lt(a.file_path@, b.file_path@) && lex_lt(b.file_path@, c.file_path@) {
            lemma_lex_transitive(a.file_path@, b.file_path@, c.file_path@);
        }
    }

    fn le(&self, other: &GlobalMatch) -> (r: bool) {
        let av = chars_of(self.file_path.as_str());
        let bv = chars_of(other.file_path.as_str());
        if crate::order::lex_lt_exec(av.as_slice(), bv.as_slice()) {
            true
        } else if crate::order::lex_lt_exec(bv.as_slice(), av.as_slice()) {
            false
        } else {
            proof {
                lemma_lex_trichotomy(av@, bv@);
            }
            self.line_number <= other.line_number
        }
    }
}

/// Orders global matches by path, then line number, keeping the order of
/// matches on the same line.
pub fn sort_global_matches(ms: Vec<GlobalMatch>) -> (r: Vec<GlobalMatch>)
    ensures
        r@ == sorted_by_key(ms@),
{
    stable_sort(ms)
}

proof fn lemma_text_hits_bounds(i: usize, texts: Seq<Seq<char>>, lq: Seq<char>)
    ensures
        forall|k: int|
            0 <= k < text_hits(i, texts, lq).len() ==> (#[trigger] text_hits(i, texts, lq)[k]).0 == i
                && (text_hits(i, texts, lq)[k].1 matches Some(j) && j < texts.len()),
    decreases texts.len(),
{
    if texts.len() > 0 {
        lemma_text_hits_bounds(i, texts.drop_last(), lq);
        let prev = text_hits(i, texts.drop_last(), lq);
        assert forall|k: int| 0 <= k < text_hits(i, texts, lq).len() implies (#[trigger] text_hits(i, texts, lq)[k]).0 == i
            && (text_hits(i, texts, lq)[k].1 matches Some(j) && j < texts.len()) by {
            if k < prev.len() {
                assert(text_hits(i, texts, lq)[k] == prev[k]);
            }
        }
    }
}

/// Every hit of a content search names a file of the list and a row of its
/// diff.
pub proof fn lemma_content_results_bounds(files: Seq<FileChange>, q: Seq<char>, filter: Option<Seq<char>>)
    requires
        diffs_fit(files),
        files.len() <= usize::MAX,
    ensures
        forall|k: int|
            0 <= k < content_results(files, q, filter).len() ==> {
                let r = #[trigger] content_results(files, q, filter)[k];
                &&& r.0 < files.len()
                &&& r.1 matches Some(j) && j < hunk_texts(files[r.0 as int].hunks@).len()
            },
    decreases files.len(),
{
    if files.len() > 0 {
        let n = files.len() - 1;
        assert(diffs_fit(files.drop_last())) by {
            assert forall|i: int| 0 <= i < files.drop_last().len() implies hunk_texts(#[trigger] files.drop_last()[i].hunks@).len() <= isize::MAX by {
                assert(files.drop_last()[i] == files[i]);
            }
        }
        lemma_content_results_bounds(files.drop_last(), q, filter);
        let prev = content_results(files.drop_last(), q, filter);
        let texts = hunk_texts(files.last().hunks@);
        lemma_text_hits_bounds(n as usize, texts, lowercase(q));
        let hits = text_hits(n as usize, texts, lowercase(q));
        assert forall|k: int| 0 <= k < content_results(files, q, filter).len() implies {
            let r = #[trigger] content_results(files, q, filter)[k];
            &&& r.0 < files.len()
            &&& r.1 matches Some(j) && j < hunk_texts(files[r.0 as int].hunks@).len()
        } by {
            let all = content_results(files, q, filter);
            if k < prev.len() {
                assert(all[k] == prev[k]);
                assert(files.drop_last()[prev[k].0 as int] == files[prev[k].0 as int]);
            } else {
                assert(all[k] == hits[k - prev.len()]);
            }
        }
    }
}

proof fn lemma_filename_results_bounds(files: Seq<FileChange>, q: Seq<char>)
    requires
        files.len() <= usize::MAX,
    ensures
        forall|k: int|
            0 <= k < filename_results(files, q).len() ==> (#[trigger] filename_results(files, q)[k]).0
                < files.len() && filename_results(files, q)[k].1 is None,
    decreases files.len(),
{
    if files.len() > 0 {
        lemma_filename_results_bounds(files.drop_last(), q);
        let prev = filename_results(files.drop_last(), q);
        assert forall|k: int| 0 <= k < filename_results(files, q).len() implies (#[trigger] filename_results(files, q)[k]).0
            < files.len() && filename_results(files, q)[k].1 is None by {
            if k < prev.len() {
                assert(filename_results(files, q)[k] == prev[k]);
            }
        }
    }
}

/// Every hit of a file name search names a file of the list.
pub proof fn law_filename_results_bounds(files: Seq<FileChange>, q: Seq<char>)
    requires
        files.len() <= usize::MAX,
    ensures
        forall|k: int|
            0 <= k < filename_results(files, q).len() ==> (#[trigger] filename_results(files, q)[k]).0
                < files.len() && filename_results(files, q)[k].1 is None,
{
    lemma_filename_results_bounds(files, q);
}


proof fn lemma_text_hits_contain(i: usize, texts: Seq<Seq<char>>, lq: Seq<char>)
    requires
        texts.len() <= usize::MAX,
    ensures
        forall|k: int|
            0 <= k < text_hits(i, texts, lq).len() ==> ((#[trigger] text_hits(i, texts, lq)[k]).1 matches Some(j)
                && j < texts.len() && contains(lowercase(texts[j as int]), lq)),
    decreases texts.len(),
{
    if texts.len() > 0 {
        lemma_text_hits_contain(i, texts.drop_last(), lq);
        let prev = text_hits(i, texts.drop_last(), lq);
        assert forall|k: int| 0 <= k < text_hits(i, texts, lq).len() implies ((#[trigger] text_hits(i, texts, lq)[k]).1 matches Some(j)
            && j < texts.len() && contains(lowercase(texts[j as int]), lq)) by {
            if k < prev.len() {
                assert(text_hits(i, texts, lq)[k] == prev[k]);
                let j = prev[k].1->0;
                assert(texts.drop_last()[j as int] == texts[j as int]);
            } else {
                assert(contains(lowercase(texts.last()), lq));
                assert(text_hits(i, texts, lq) == prev.push((i, Some((texts.len() - 1) as usize))));
            }
        }
    }
}

/// Every hit of a content search names a diff line of a file that passes
/// the file filter, and that line, lowercased, holds the lowercased query.
pub proof fn law_content_hits_hold_query(files: Seq<FileChange>, q: Seq<char>, filter: Option<Seq<char>>)
    requires
        diffs_fit(files),
        files.len() <= usize::MAX,
    ensures
        forall|k: int|
            0 <= k < content_results(files, q, filter).len() ==> {
                let r = #[trigger] content_results(files, q, filter)[k];
                &&& r.0 < files.len()
                &&& passes_filter(filter, files[r.0 as int].path@)
                &&& r.1 matches Some(j) && j < hunk_texts(files[r.0 as int].hunks@).len() && contains(
                    lowercase(hunk_texts(files[r.0 as int].hunks@)[j as int]),
                    lowercase(q),
                )
            },
    decreases files.len(),
{
    if files.len() > 0 {
        assert(diffs_fit(files.drop_last())) by {
            assert forall|i: int| 0 <= i < files.drop_last().len() implies hunk_texts(#[trigger] files.drop_last()[i].hunks@).len() <= isize::MAX by {
                assert(files.drop_last()[i] == files[i]);
            }
        }
        assert(hunk_texts(files[files.len() - 1].hunks@).len() <= isize::MAX);
        law_content_hits_hold_query(files.drop_last(), q, filter);
        let n = files.len() - 1;
        let prev = content_results(files.drop_last(), q, filter);
        let texts = hunk_texts(files.last().hunks@);
        lemma_text_hits_contain(n as usize, texts, lowercase(q));
        lemma_text_hits_bounds(n as usize, texts, lowercase(q));
        let hits = text_hits(n as usize, texts, lowercase(q));
        assert forall|k: int| 0 <= k < content_results(files, q, filter).len() implies {
            let r = #[trigger] content_results(files, q, filter)[k];
            &&& r.0 < files.len()
            &&& passes_filter(filter, files[r.0 as int].path@)
            &&& r.1 matches Some(j) && j < hunk_texts(files[r.0 as int].hunks@).len() && contains(
                lowercase(hunk_texts(files[r.0 as int].hunks@)[j as int]),
                lowercase(q),
            )
        } by {
            let all = content_results(files, q, filter);
            if k < prev.len() {
                assert(all[k] == prev[k]);
                assert(files.drop_last()[prev[k].0 as int] == files[prev[k].0 as int]);
            } else {
                assert(all[k] == hits[k - prev.len()]);
            }
        }
    }
}

proof fn lemma_text_hits_complete(i: usize, texts: Seq<Seq<char>>, lq: Seq<char>, j: int)
    requires
        texts.len() <= usize::MAX,
        0 <= j < texts.len(),
        contains(lowercase(texts[j]), lq),
    ensures
        text_hits(i, texts, lq).contains((i, Some(j as usize))),
    decreases texts.len(),
{
    let prev = text_hits(i, texts.drop_last(), lq);
    if j < texts.len() - 1 {
        assert(texts.drop_last()[j] == texts[j]);
        lemma_text_hits_complete(i, texts.drop_last(), lq, j);
        let k = choose|k: int| 0 <= k < prev.len() && prev[k] == (i, Some(j as usize));
        if contains(lowercase(texts.last()), lq) {
            assert(text_hits(i, texts, lq)[k] == prev[k]);
        }
    } else {
        assert(text_hits(i, texts, lq) == prev.push((i, Some(j as usize))));
        assert(text_hits(i, texts, lq)[prev.len() as int] == (i, Some(j as usize)));
    }
}

proof fn lemma_text_hits_ordered(i: usize, texts: Seq<Seq<char>>, lq: Seq<char>)
    requires
        texts.len() <= usize::MAX,
    ensures
        forall|a: int, b: int|
            0 <= a < b < text_hits(i, texts, lq).len() ==> (#[trigger] text_hits(i, texts, lq)[a]).1->0
                < (#[trigger] text_hits(i, texts, lq)[b]).1->0,
    decreases texts.len(),
{
    if texts.len() > 0 {
        lemma_text_hits_ordered(i, texts.drop_last(), lq);
        lemma_text_hits_bounds(i, texts.drop_last(), lq);
        let prev = text_hits(i, texts.drop_last(), lq);
        let cur = text_hits(i, texts, lq);
        assert forall|a: int, b: int| 0 <= a < b < cur.len() implies (#[trigger] cur[a]).1->0 < (#[trigger] cur[b]).1->0 by {
            assert(cur[a] == prev[a]);
            if b < prev.len() {
                assert(cur[b] == prev[b]);
            } else {
                assert(cur[b] == (i, Some((texts.len() - 1) as usize)));
            }
        }
    }
}

/// A content search finds every diff line that holds the query: for each
/// file that passes the filter and each row of its diff whose lowercased
/// text holds the lowercased query, the file and row are among the hits.
pub proof fn law_content_results_complete(
    files: Seq<FileChange>,
    q: Seq<char>,
    filter: Option<Seq<char>>,
    i: int,
    j: int,
)
    requires
        diffs_fit(files),
        files.len() <= usize::MAX,
        0 <= i < files.len(),
        passes_filter(filter, files[i].path@),
        0 <= j < hunk_texts(files[i].hunks@).len(),
        contains(lowercase(hunk_texts(files[i].hunks@)[j]), lowercase(q)),
    ensures
        content_results(files, q, filter).contains((i as usize, Some(j as usize))),
    decreases files.len(),
{
    let n = files.len() - 1;
    let prev = content_results(files.drop_last(), q, filter);
    let cur = content_results(files, q, filter);
    if i < n {
        assert(files.drop_last()[i] == files[i]);
        assert(diffs_fit(files.drop_last())) by {
            assert forall|x: int| 0 <= x < files.drop_last().len() implies hunk_texts(#[trigger] files.drop_last()[x].hunks@).len() <= isize::MAX by {
                assert(files.drop_last()[x] == files[x]);
            }
        }
        law_content_results_complete(files.drop_last(), q, filter, i, j);
        let k = choose|k: int| 0 <= k < prev.len() && prev[k] == (i as usize, Some(j as usize));
        if passes_filter(filter, files.last().path@) {
            let hits = text_hits(n as usize, hunk_texts(files.last().hunks@), lowercase(q));
            assert(cur[k] == (prev + hits)[k]);
        }
        assert(cur[k] == (i as usize, Some(j as usize)));
    } else {
        assert(files[i] == files.last());
        let texts = hunk_texts(files.last().hunks@);
        assert(texts.len() <= isize::MAX);
        lemma_text_hits_complete(n as usize, texts, lowercase(q), j);
        let hits = text_hits(n as usize, texts, lowercase(q));
        let k = choose|k: int| 0 <= k < hits.len() && hits[k] == (i as usize, Some(j as usize));
        assert(cur[prev.len() + k] == (prev + hits)[prev.len() + k]);
    }
}

/// The hits of a content search come in order, each once: by file, then
/// by row within the file.
pub proof fn law_content_results_ordered(files: Seq<FileChange>, q: Seq<char>, filter: Option<Seq<char>>)
    requires
        diffs_fit(files),
        files.len() <= usize::MAX,
    ensures
        forall|a: int, b: int|
            0 <= a < b < content_results(files, q, filter).len() ==> {
                let x = #[trigger] content_results(files, q, filter)[a];
                let y = #[trigger] content_results(files, q, filter)[b];
                x.0 < y.0 || (x.0 == y.0 && x.1->0 < y.1->0)
            },
    decreases files.len(),
{
    if files.len() > 0 {
        let n = files.len() - 1;
        assert(diffs_fit(files.drop_last())) by {
            assert forall|x: int| 0 <= x < files.drop_last().len() implies hunk_texts(#[trigger] files.drop_last()[x].hunks@).len() <= isize::MAX by {
                assert(files.drop_last()[x] == files[x]);
            }
        }
        law_content_results_ordered(files.drop_last(), q, filter);
        lemma_content_results_bounds(files.drop_last(), q, filter);
        let prev = content_results(files.drop_last(), q, filter);
        let cur = content_results(files, q, filter);
        let texts = hunk_texts(files.last().hunks@);
        assert(texts.len() <= isize::MAX);
        lemma_text_hits_ordered(n as usize, texts, lowercase(q));
        lemma_text_hits_bounds(n as usize, texts, lowercase(q));
        let hits = text_hits(n as usize, texts, lowercase(q));
        assert forall|a: int, b: int| 0 <= a < b < cur.len() implies {
            let x = #[trigger] cur[a];
            let y = #[trigger] cur[b];
            x.0 < y.0 || (x.0 == y.0 && x.1->0 < y.1->0)
        } by {
            if passes_filter(filter, files.last().path@) {
                let all = prev + hits;
                assert(cur == all);
                if b < prev.len() {
                    assert(all[a] == prev[a] && all[b] == prev[b]);
                } else if a < prev.len() {
                    assert(all[a] == prev[a]);
                    assert(all[b] == hits[b - prev.len()]);
                } else {
                    assert(all[a] == hits[a - prev.len()]);
                    assert(all[b] == hits[b - prev.len()]);
                }
            }
        }
    }
}

} // verus!
