//! Shell-style wildcard matching of names (through the `glob` crate) and the
//! name tests built on it.

use vstd::prelude::*;
use crate::text::{contains_seq, lowercase, occurs_at, str_contains, to_lowercase, views};

verus! {

/// Whether `glob::Pattern::new(pattern)` compiles and the compiled pattern
/// `matches(name)` (default match options). The syntax, from the crate's
/// documentation: `?` matches one character, `*` any sequence, `[...]` and
/// `[!...]` character classes; an invalid pattern matches nothing here.
pub uninterp spec fn glob_matches(pattern: Seq<char>, name: Seq<char>) -> bool;

/// `glob::Pattern::new(pattern)`, then `Pattern::matches(name)`; `false` when
/// the pattern does not compile.
#[verifier::external_body]
pub(crate) fn glob_match(pattern: &str, name: &str) -> (r: bool)
    ensures
        r == glob_matches(pattern@, name@),
{
    match glob::Pattern::new(pattern) {
        Ok(p) => p.matches(name),
        Err(_) => false,
    }
}

/// Some pattern of `patterns` matches `name`.
pub open spec fn any_matches(patterns: Seq<Seq<char>>, name: Seq<char>) -> bool {
    exists|i: int| 0 <= i < patterns.len() && glob_matches(#[trigger] patterns[i], name)
}

/// Decides `any_matches`.
pub fn any_glob_matches(patterns: &Vec<String>, name: &str) -> (r: bool)
    ensures
        r == any_matches(views(patterns@), name@),
{
    let mut i: usize = 0;
    while i < patterns.len()
        invariant
            i <= patterns.len(),
            forall|j: int| 0 <= j < i ==> !glob_matches(#[trigger] views(patterns@)[j], name@),
        decreases patterns.len() - i,
    {
        assert(views(patterns@)[i as int] == patterns@[i as int]@);
        if glob_match(patterns[i].as_str(), name) {
            return true;
        }
        i = i + 1;
    }
    false
}

/// The name compared against patterns: lower-cased when matching ignores case.
pub open spec fn folded(name: Seq<char>, case_insensitive: bool) -> Seq<char> {
    if case_insensitive {
        lowercase(name)
    } else {
        name
    }
}

/// The patterns compared against names: each lower-cased when matching
/// ignores case.
pub open spec fn folded_all(patterns: Seq<Seq<char>>, case_insensitive: bool) -> Seq<Seq<char>> {
    patterns.map_values(|p: Seq<char>| folded(p, case_insensitive))
}

/// `name` passes the include filter: no patterns, or one of them matches the
/// name, pattern and name both case-folded when matching ignores case.
pub open spec fn include_ok(name: Seq<char>, patterns: Seq<Seq<char>>, case_insensitive: bool) -> bool {
    patterns.len() == 0 || any_matches(folded_all(patterns, case_insensitive), folded(name, case_insensitive))
}

/// Decides `include_ok`: whether a file is admitted by the include patterns.
pub fn matches_include(name: &str, patterns: &Vec<String>, case_insensitive: bool) -> (r: bool)
    ensures
        r == include_ok(name@, views(patterns@), case_insensitive),
{
    if patterns.len() == 0 {
        return true;
    }
    let subject = if case_insensitive {
        to_lowercase(name)
    } else {
        name.to_owned()
    };
    let ghost fp = folded_all(views(patterns@), case_insensitive);
    let mut i: usize = 0;
    while i < patterns.len()
        invariant
            i <= patterns.len(),
            fp == folded_all(views(patterns@), case_insensitive),
            subject@ == folded(name@, case_insensitive),
            forall|j: int| 0 <= j < i ==> !glob_matches(#[trigger] fp[j], subject@),
        decreases patterns.len() - i,
    {
        assert(fp[i as int] == folded(patterns@[i as int]@, case_insensitive));
        let hit = if case_insensitive {
            let p = to_lowercase(patterns[i].as_str());
            glob_match(p.as_str(), subject.as_str())
        } else {
            glob_match(patterns[i].as_str(), subject.as_str())
        };
        if hit {
            return true;
        }
        i = i + 1;
    }
    false
}

/// A directory named `name` is skipped: some exclude entry matches it as a
/// pattern or equals it.
pub open spec fn excluded(name: Seq<char>, excludes: Seq<Seq<char>>) -> bool {
    exists|i: int|
        0 <= i < excludes.len() && (glob_matches(#[trigger] excludes[i], name) || excludes[i] == name)
}

/// Decides `excluded`.
pub fn is_excluded_dir(name: &str, excludes: &Vec<String>) -> (r: bool)
    ensures
        r == excluded(name@, views(excludes@)),
{
    let mut i: usize = 0;
    while i < excludes.len()
        invariant
            i <= excludes.len(),
            forall|j: int|
                0 <= j < i ==> !(glob_matches(#[trigger] views(excludes@)[j], name@) || views(
                    excludes@,
                )[j] == name@),
        decreases excludes.len() - i,
    {
        assert(views(excludes@)[i as int] == excludes@[i as int]@);
        if glob_match(excludes[i].as_str(), name) || str_eq(excludes[i].as_str(), name) {
            return true;
        }
        i = i + 1;
    }
    false
}

/// Equality of two strings.
pub fn str_eq(a: &str, b: &str) -> (r: bool)
    ensures
        r == (a@ == b@),
{
    let ca = crate::text::chars_of(a);
    let cb = crate::text::chars_of(b);
    if ca.len() != cb.len() {
        return false;
    }
    let mut i: usize = 0;
    while i < ca.len()
        invariant
            i <= ca.len() == cb.len(),
            ca@ == a@,
            cb@ == b@,
            ca@.take(i as int) == cb@.take(i as int),
        decreases ca.len() - i,
    {
        if ca[i] != cb[i] {
            return false;
        }
        assert(ca@.take(i + 1) =~= ca@.take(i as int).push(ca@[i as int]));
        assert(cb@.take(i + 1) =~= cb@.take(i as int).push(cb@[i as int]));
        i = i + 1;
    }
    assert(ca@.take(ca.len() as int) =~= ca@);
    assert(cb@.take(cb.len() as int) =~= cb@);
    true
}

/// `p` holds a wildcard (`*` or `?`).
pub open spec fn has_wildcard(p: Seq<char>) -> bool {
    p.contains('*') || p.contains('?')
}

/// How an entry name is matched against the search pattern: both are
/// case-folded when matching ignores case; a pattern with a wildcard is
/// matched as a glob, any other pattern as a substring of the name.
pub open spec fn name_match(entry: Seq<char>, pattern: Seq<char>, case_insensitive: bool) -> bool {
    let n = folded(entry, case_insensitive);
    let p = folded(pattern, case_insensitive);
    if has_wildcard(p) {
        glob_matches(p, n)
    } else {
        contains_seq(n, p)
    }
}

/// Whether `s` holds the character `c`.
pub fn str_has_char(s: &str, c: char) -> (r: bool)
    ensures
        r == s@.contains(c),
{
    let cs = crate::text::chars_of(s);
    let mut i: usize = 0;
    while i < cs.len()
        invariant
            i <= cs.len(),
            cs@ == s@,
            forall|j: int| 0 <= j < i ==> cs@[j] != c,
        decreases cs.len() - i,
    {
        if cs[i] == c {
            assert(s@[i as int] == c);
            return true;
        }
        i = i + 1;
    }
    false
}

/// Decides `name_match`.
pub fn name_matches(entry_name: &str, pattern: &str, case_insensitive: bool) -> (r: bool)
    ensures
        r == name_match(entry_name@, pattern@, case_insensitive),
{
    let (name, pat) = if case_insensitive {
        (to_lowercase(entry_name), to_lowercase(pattern))
    } else {
        (entry_name.to_owned(), pattern.to_owned())
    };
    if str_has_char(pat.as_str(), '*') || str_has_char(pat.as_str(), '?') {
        glob_match(pat.as_str(), name.as_str())
    } else {
        str_contains(name.as_str(), pat.as_str())
    }
}


/// Ignoring case, a name matches exactly when its lower-case form matches
/// the lower-case form of the pattern with case counting: both sides are
/// folded, never only one of them.
pub proof fn law_name_match_folds_both(entry: Seq<char>, pattern: Seq<char>)
    ensures
        name_match(entry, pattern, true) == name_match(lowercase(entry), lowercase(pattern), false),
{
}

/// A name matches its own text, in whatever case it is written when case
/// is ignored, as long as the text holds no wildcard.
pub proof fn law_name_matches_itself(x: Seq<char>)
    ensures
        !has_wildcard(x) ==> name_match(x, x, false),
        !has_wildcard(lowercase(x)) ==> name_match(x, x, true),
{
    assert(x.subrange(0, x.len() as int) =~= x);
    assert(occurs_at(x, x, 0));
    let l = lowercase(x);
    assert(l.subrange(0, l.len() as int) =~= l);
    assert(occurs_at(l, l, 0));
}

/// A substring pattern (no wildcard) matches a name exactly when it occurs
/// in the name, compared in lower case when case is ignored.
pub proof fn law_name_match_substring(entry: Seq<char>, pattern: Seq<char>)
    ensures
        !has_wildcard(pattern) ==> (name_match(entry, pattern, false) <==> exists|i: int|
            0 <= i && i + pattern.len() <= entry.len() && #[trigger] entry.subrange(i, i + pattern.len())
                == pattern),
        !has_wildcard(lowercase(pattern)) ==> (name_match(entry, pattern, true) <==> exists|i: int|
            0 <= i && i + lowercase(pattern).len() <= lowercase(entry).len() && #[trigger] lowercase(
                entry,
            ).subrange(i, i + lowercase(pattern).len()) == lowercase(pattern)),
{
    lemma_contains_seq_at(entry, pattern);
    lemma_contains_seq_at(lowercase(entry), lowercase(pattern));
}

proof fn lemma_contains_seq_at(hay: Seq<char>, needle: Seq<char>)
    ensures
        contains_seq(hay, needle) <==> exists|i: int|
            0 <= i && i + needle.len() <= hay.len() && #[trigger] hay.subrange(i, i + needle.len()) == needle,
{
    if contains_seq(hay, needle) {
        let i = choose|i: int| occurs_at(hay, needle, i);
        assert(hay.subrange(i, i + needle.len()) == needle);
    }
    if exists|i: int| 0 <= i && i + needle.len() <= hay.len() && #[trigger] hay.subrange(i, i + needle.len()) == needle {
        let i = choose|i: int| 0 <= i && i + needle.len() <= hay.len() && #[trigger] hay.subrange(i, i + needle.len()) == needle;
        assert(occurs_at(hay, needle, i));
    }
}

}
