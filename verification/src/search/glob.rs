//! Glob patterns (`*`, `?`) turned into anchored regular expressions.

use vstd::prelude::*;
use crate::text::chars_of;
use super::{regex_compiles, regex_new, CompiledPattern};

verus! {

/// Characters that stand for themselves in a glob but are special in a
/// regular expression.
pub open spec fn is_regex_meta(c: char) -> bool {
    c == '.' || c == '+' || c == '(' || c == ')' || c == '[' || c == ']' || c == '{' || c == '}'
        || c == '^' || c == '$' || c == '|' || c == '\\'
}

/// The regular expression text for one glob character.
pub open spec fn glob_char(c: char) -> Seq<char> {
    if c == '*' {
        seq!['.', '*']
    } else if c == '?' {
        seq!['.']
    } else if is_regex_meta(c) {
        seq!['\\', c]
    } else {
        seq![c]
    }
}

/// The regular expression text for the glob characters `p`, in order.
pub open spec fn glob_body(p: Seq<char>) -> Seq<char>
    decreases p.len(),
{
    if p.len() == 0 {
        Seq::empty()
    } else {
        glob_body(p.drop_last()) + glob_char(p.last())
    }
}

/// The anchored regular expression for the glob `p`.
pub open spec fn glob_regex_source(p: Seq<char>) -> Seq<char> {
    seq!['^'] + glob_body(p) + seq!['$']
}

/// The regular expression text for the glob `pattern`.
pub fn glob_source(pattern: &str) -> (r: String)
    ensures
        r@ == glob_regex_source(pattern@),
{
    let v = chars_of(pattern);
    let mut r = String::new();
    r.push('^');
    let mut i: usize = 0;
    assert(v@.take(0) =~= Seq::<char>::empty());
    while i < v.len()
        invariant
            i <= v.len(),
            r@ == seq!['^'] + glob_body(v@.take(i as int)),
        decreases v.len() - i,
    {
        let c = v[i];
        if c == '*' {
            r.push('.');
            r.push('*');
        } else if c == '?' {
            r.push('.');
        } else if c == '.' || c == '+' || c == '(' || c == ')' || c == '[' || c == ']' || c == '{'
            || c == '}' || c == '^' || c == '$' || c == '|' || c == '\\' {
            r.push('\\');
            r.push(c);
        } else {
            r.push(c);
        }
        assert(v@.take(i + 1).drop_last() =~= v@.take(i as int));
        assert(v@.take(i + 1).last() == c);
        i = i + 1;
        assert(r@ =~= seq!['^'] + glob_body(v@.take(i as int)));
    }
    r.push('$');
    assert(v@.take(v@.len() as int) =~= v@);
    assert(r@ =~= glob_regex_source(pattern@));
    r
}

/// Compiles the glob `pattern` into an anchored regular expression. It
/// fails exactly when the regular expression text does not compile, and
/// the pattern it gives is compiled from that text.
pub fn glob_to_regex(pattern: &str) -> (r: Result<CompiledPattern, regex::Error>)
    ensures
        r is Ok <==> regex_compiles(glob_regex_source(pattern@)),
        r matches Ok(p) ==> p.source() == glob_regex_source(pattern@),
{
    let src = glob_source(pattern);
    regex_new(src.as_str())
}

} // verus!
