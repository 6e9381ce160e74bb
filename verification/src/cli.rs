//! The command line argument that picks what to compare.

use vstd::prelude::*;
use crate::text::{chars_of, find, find_exec, string_of_range, lemma_find_from};
use crate::git::strings_view;

verus! {

/// What to show instead of the working tree: one commit, or the diff
/// between two refs.
#[derive(Debug, Clone, PartialEq)]
pub enum CompareTarget {
    Commit(String),
    Range { left: String, right: String },
}

/// The first argument that is not `--`.
pub open spec fn first_arg(args: Seq<Seq<char>>) -> Option<Seq<char>>
    decreases args.len(),
{
    if args.len() == 0 {
        None
    } else if args[0] == "--"@ {
        first_arg(args.drop_first())
    } else {
        Some(args[0])
    }
}

/// The target that the argument `a` names: a range `left:right` split at
/// the first `:`, else a commit.
pub open spec fn target_of(a: Seq<char>, t: CompareTarget) -> bool {
    match find(a, seq![':']) {
        Some(p) => t matches CompareTarget::Range { left, right } && left@ == a.take(p) && right@
            == a.skip(p + 1),
        None => t matches CompareTarget::Commit(c) && c@ == a,
    }
}

/// Reads the comparison target from the program's arguments: the first
/// argument that is not `--`, if any.
pub fn parse_arg(args: Vec<String>) -> (r: Option<CompareTarget>)
    ensures
        match first_arg(strings_view(args@)) {
            None => r is None,
            Some(a) => r matches Some(t) && target_of(a, t),
        },
{
    let ghost s = strings_view(args@);
    let mut i: usize = 0;
    let dd = "--".to_owned();
    assert(s.skip(0) =~= s);
    while i < args.len() && args[i] == dd
        invariant
            i <= args.len(),
            s == strings_view(args@),
            dd@ == "--"@,
            first_arg(s) == first_arg(s.skip(i as int)),
        decreases args.len() - i,
    {
        assert(s.skip(i as int)[0] == s[i as int]);
        assert(s.skip(i as int).drop_first() =~= s.skip(i + 1));
        i = i + 1;
    }
    if i == args.len() {
        assert(s.skip(i as int) =~= Seq::<Seq<char>>::empty());
        return None;
    }
    assert(s.skip(i as int)[0] == s[i as int]);
    let a = &args[i];
    let v = chars_of(a.as_str());
    let colon = chars_of(":");
    assert(colon@ =~= seq![':']) by {
        reveal_strlit(":");
    }
    match find_exec(v.as_slice(), colon.as_slice(), 0) {
        Some(p) => {
            proof {
                lemma_find_from(v@, colon@, 0);
                assert(crate::text::matches_at(v@, colon@, p as int));
                assert(colon@.len() == 1);
                assert(p + 1 <= v@.len());
                assert(v@.len() == v.len());
            }
            let left = string_of_range(v.as_slice(), 0, p);
            let right = string_of_range(v.as_slice(), p + 1, v.len());
            assert(v@.subrange(0, p as int) =~= v@.take(p as int));
            assert(v@.subrange(p + 1, v@.len() as int) =~= v@.skip(p + 1));
            Some(CompareTarget::Range { left, right })
        },
        None => Some(CompareTarget::Commit(a.clone())),
    }
}

/// A range argument is rebuilt by joining its two sides with `:`, and its
/// left side holds no `:`.
pub proof fn law_range_rejoins(a: Seq<char>, t: CompareTarget)
    requires
        target_of(a, t),
        t is Range,
    ensures
        t matches CompareTarget::Range { left, right } && left@ + seq![':'] + right@ == a
            && !left@.contains(':'),
{
    let p = find(a, seq![':'])->0;
    crate::text::lemma_find_from(a, seq![':'], 0);
    assert(a.subrange(p, p + 1) =~= seq![':']);
    assert(a.take(p) + seq![':'] + a.skip(p + 1) =~= a);
    assert forall|j: int| 0 <= j < p implies a.take(p)[j] != ':' by {
        if a.take(p)[j] == ':' {
            assert(a.subrange(j, j + 1) =~= seq![':']);
            assert(crate::text::matches_at(a, seq![':'], j));
        }
    }
}

} // verus!
