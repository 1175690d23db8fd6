//! Character-level helpers: white space, trimming, splitting, substring search.

use vstd::prelude::*;

verus! {

/// Rust's `char::is_whitespace`: the Unicode `White_Space` property.
pub open spec fn is_white_space(c: char) -> bool {
    ||| c == ' '
    ||| ('\u{09}' <= c && c <= '\u{0D}')
    ||| c == '\u{85}'
    ||| c == '\u{A0}'
    ||| c == '\u{1680}'
    ||| ('\u{2000}' <= c && c <= '\u{200A}')
    ||| c == '\u{2028}'
    ||| c == '\u{2029}'
    ||| c == '\u{202F}'
    ||| c == '\u{205F}'
    ||| c == '\u{3000}'
}

/// Decides `is_white_space`.
pub fn is_white_space_char(c: char) -> (r: bool)
    ensures
        r == is_white_space(c),
{
    c == ' ' || ('\u{09}' <= c && c <= '\u{0D}') || c == '\u{85}' || c == '\u{A0}' || c
        == '\u{1680}' || ('\u{2000}' <= c && c <= '\u{200A}') || c == '\u{2028}' || c == '\u{2029}'
        || c == '\u{202F}' || c == '\u{205F}' || c == '\u{3000}'
}


/// `String::push`: appends one character.
#[verifier::external_body]
pub(crate) fn push_char(s: &mut String, c: char)
    ensures
        final(s)@ == old(s)@.push(c),
{
    s.push(c);
}


/// The characters of `s`, in order.
pub fn chars_of(s: &str) -> (r: Vec<char>)
    ensures
        r@ == s@,
{
    broadcast use vstd::string::group_string_axioms;
    let mut r: Vec<char> = Vec::new();
    for c in it: s.chars()
        invariant
            r@ == it.seq().take(it.index() as int),
            it.seq() == s@,
    {
        r.push(c);
    }
    r
}


/// Appending one element to a sequence and then filtering it.
pub proof fn lemma_filter_push<A>(s: Seq<A>, x: A, p: spec_fn(A) -> bool)
    ensures
        s.push(x).filter(p) == (if p(x) {
            s.filter(p).push(x)
        } else {
            s.filter(p)
        }),
{
    reveal(Seq::filter);
    assert(s.push(x).drop_last() =~= s);
}

/// `s` with its leading white space removed (`str::trim_start`).
pub open spec fn trim_start(s: Seq<char>) -> Seq<char>
    decreases s.len(),
{
    if s.len() > 0 && is_white_space(s[0]) {
        trim_start(s.drop_first())
    } else {
        s
    }
}

/// `s` with its trailing white space removed (`str::trim_end`).
pub open spec fn trim_end(s: Seq<char>) -> Seq<char>
    decreases s.len(),
{
    if s.len() > 0 && is_white_space(s.last()) {
        trim_end(s.drop_last())
    } else {
        s
    }
}

/// `s` without leading and trailing white space (`str::trim`).
pub open spec fn trim(s: Seq<char>) -> Seq<char> {
    trim_end(trim_start(s))
}

/// The characters `cs[from..to]` as a new `Vec`.
pub fn copy_range(cs: &Vec<char>, from: usize, to: usize) -> (r: Vec<char>)
    requires
        from <= to <= cs.len(),
    ensures
        r@ == cs@.subrange(from as int, to as int),
{
    let mut r: Vec<char> = Vec::new();
    let mut i = from;
    while i < to
        invariant
            from <= i <= to <= cs.len(),
            r@ == cs@.subrange(from as int, i as int),
        decreases to - i,
    {
        r.push(cs[i]);
        i = i + 1;
    }
    r
}

/// `cs` with leading and trailing white space removed.
pub fn trim_chars(cs: &Vec<char>) -> (r: Vec<char>)
    ensures
        r@ == trim(cs@),
{
    let n = cs.len();
    let mut i: usize = 0;
    assert(cs@.subrange(0, n as int) =~= cs@);
    while i < n && is_white_space_char(cs[i])
        invariant
            i <= n == cs.len(),
            trim_start(cs@) == trim_start(cs@.subrange(i as int, n as int)),
        decreases n - i,
    {
        assert(cs@.subrange(i as int, n as int).drop_first() =~= cs@.subrange(i + 1, n as int));
        i = i + 1;
    }
    assert(trim_start(cs@.subrange(i as int, n as int)) == cs@.subrange(i as int, n as int));
    let mut j: usize = n;
    while j > i && is_white_space_char(cs[j - 1])
        invariant
            i <= j <= n == cs.len(),
            trim(cs@) == trim_end(cs@.subrange(i as int, j as int)),
        decreases j - i,
    {
        assert(cs@.subrange(i as int, j as int).drop_last() =~= cs@.subrange(i as int, j - 1));
        j = j - 1;
    }
    copy_range(cs, i, j)
}

/// The string made of the characters `cs`.
pub fn string_of(cs: &Vec<char>) -> (s: String)
    ensures
        s@ == cs@,
{
    let mut s = String::new();
    let mut i: usize = 0;
    while i < cs.len()
        invariant
            i <= cs.len(),
            s@ == cs@.take(i as int),
        decreases cs.len() - i,
    {
        push_char(&mut s, cs[i]);
        assert(cs@.take(i + 1) =~= cs@.take(i as int).push(cs@[i as int]));
        i = i + 1;
    }
    assert(cs@.take(cs.len() as int) =~= cs@);
    s
}

/// `str::trim`, returning an owned string.
pub fn trimmed(s: &str) -> (r: String)
    ensures
        r@ == trim(s@),
{
    let cs = chars_of(s);
    let t = trim_chars(&cs);
    string_of(&t)
}

/// The pieces of `s` between occurrences of `sep` (`str::split` with a
/// character): always at least one piece; `k` separators give `k + 1` pieces.
pub open spec fn split_on(s: Seq<char>, sep: char) -> Seq<Seq<char>>
    decreases s.len(),
{
    if s.len() == 0 {
        seq![Seq::<char>::empty()]
    } else {
        let rest = split_on(s.drop_last(), sep);
        if s.last() == sep {
            rest.push(Seq::<char>::empty())
        } else {
            rest.update(rest.len() - 1, rest.last().push(s.last()))
        }
    }
}

/// `split_on` never yields an empty list of pieces.
pub proof fn lemma_split_on_nonempty(s: Seq<char>, sep: char)
    ensures
        split_on(s, sep).len() >= 1,
    decreases s.len(),
{
    if s.len() > 0 {
        lemma_split_on_nonempty(s.drop_last(), sep);
    }
}

/// Each piece trimmed.
pub open spec fn trim_all(pieces: Seq<Seq<char>>) -> Seq<Seq<char>> {
    pieces.map_values(|p: Seq<char>| trim(p))
}

/// The pieces that are not empty.
pub open spec fn non_empty(pieces: Seq<Seq<char>>) -> Seq<Seq<char>> {
    pieces.filter(|p: Seq<char>| p.len() > 0)
}

/// The items of a comma-separated list: the pieces between commas, trimmed,
/// with the empty ones dropped.
pub open spec fn csv_items(s: Seq<char>) -> Seq<Seq<char>> {
    non_empty(trim_all(split_on(s, ',')))
}

pub proof fn lemma_trim_all_push(pieces: Seq<Seq<char>>, p: Seq<char>)
    ensures
        trim_all(pieces.push(p)) == trim_all(pieces).push(trim(p)),
{
    assert(trim_all(pieces.push(p)) =~= trim_all(pieces).push(trim(p)));
}

pub proof fn lemma_non_empty_push(pieces: Seq<Seq<char>>, p: Seq<char>)
    ensures
        non_empty(pieces.push(p)) == (if p.len() > 0 {
            non_empty(pieces).push(p)
        } else {
            non_empty(pieces)
        }),
{
    lemma_filter_push(pieces, p, |p: Seq<char>| p.len() > 0);
}

/// The views of a list of strings.
pub open spec fn views(v: Seq<String>) -> Seq<Seq<char>> {
    v.map_values(|x: String| x@)
}



/// What `str::to_lowercase` gives for a string: its Unicode lower-case mapping.
pub uninterp spec fn lowercase(s: Seq<char>) -> Seq<char>;

/// Every character is an ASCII lower-case letter or an ASCII digit: text
/// that has no other lower-case form.
pub open spec fn lower_ascii_text(s: Seq<char>) -> bool {
    forall|i: int| 0 <= i < s.len() ==> ('a' <= #[trigger] s[i] && s[i] <= 'z') || ('0' <= s[i] && s[i] <= '9')
}

/// `str::to_lowercase`: the lower-case mapping of each character; text made
/// of lower-case ASCII letters and digits comes back unchanged.
#[verifier::external_body]
pub(crate) fn to_lowercase(s: &str) -> (r: String)
    ensures
        r@ == lowercase(s@),
        lower_ascii_text(s@) ==> r@ == s@,
{
    s.to_lowercase()
}

/// `needle` occurs in `hay` starting at position `i`.
pub open spec fn occurs_at(hay: Seq<char>, needle: Seq<char>, i: int) -> bool {
    0 <= i && i + needle.len() <= hay.len() && hay.subrange(i, i + needle.len()) == needle
}

/// `needle` is a contiguous part of `hay` (`str::contains` with a string pattern).
pub open spec fn contains_seq(hay: Seq<char>, needle: Seq<char>) -> bool {
    exists|i: int| occurs_at(hay, needle, i)
}

fn occurs_at_exec(hay: &Vec<char>, needle: &Vec<char>, i: usize) -> (r: bool)
    requires
        i + needle.len() <= hay.len(),
    ensures
        r == occurs_at(hay@, needle@, i as int),
{
    let mut j: usize = 0;
    while j < needle.len()
        invariant
            i + needle.len() <= hay.len(),
            j <= needle.len(),
            hay@.subrange(i as int, i + j) == needle@.take(j as int),
        decreases needle.len() - j,
    {
        if hay[i + j] != needle[j] {
            assert(hay@.subrange(i as int, i + needle.len())[j as int] != needle@[j as int]);
            return false;
        }
        assert(hay@.subrange(i as int, i + j + 1) =~= hay@.subrange(i as int, i + j).push(hay@[i + j]));
        assert(needle@.take(j + 1) =~= needle@.take(j as int).push(needle@[j as int]));
        j = j + 1;
    }
    assert(needle@.take(needle.len() as int) =~= needle@);
    true
}

/// Decides `contains_seq` on character vectors.
pub fn contains_chars(hay: &Vec<char>, needle: &Vec<char>) -> (r: bool)
    ensures
        r == contains_seq(hay@, needle@),
{
    if needle.len() == 0 {
        assert(hay@.subrange(0, 0) =~= needle@);
        assert(occurs_at(hay@, needle@, 0));
        return true;
    }
    if needle.len() > hay.len() {
        return false;
    }
    let last = hay.len() - needle.len();
    let mut i: usize = 0;
    while i <= last
        invariant
            last + needle.len() == hay.len(),
            needle.len() > 0,
            i <= last + 1,
            forall|k: int| 0 <= k < i ==> !occurs_at(hay@, needle@, k),
        decreases last + 1 - i,
    {
        if occurs_at_exec(hay, needle, i) {
            return true;
        }
        i = i + 1;
    }
    false
}

/// `str::contains` with a string pattern.
pub fn str_contains(hay: &str, needle: &str) -> (r: bool)
    ensures
        r == contains_seq(hay@, needle@),
{
    let h = chars_of(hay);
    let n = chars_of(needle);
    contains_chars(&h, &n)
}

/// The decimal digit for a value below 10.
pub open spec fn digit_char(d: nat) -> char {
    ((d + 48) as u8) as char
}

/// Decimal rendering of a natural number, without leading zeros (`{}` of an integer).
pub open spec fn decimal(n: nat) -> Seq<char>
    decreases n,
{
    if n < 10 {
        seq![digit_char(n)]
    } else {
        decimal(n / 10) + seq![digit_char(n % 10)]
    }
}

proof fn lemma_digit_char_injective(x: nat, y: nat)
    requires
        x < 10,
        y < 10,
        digit_char(x) == digit_char(y),
    ensures
        x == y,
{
    assert(((x + 48) as u8) as char as u32 == (x + 48) as u32);
    assert(((y + 48) as u8) as char as u32 == (y + 48) as u32);
}

/// Decimal renderings are never empty, and different numbers render differently.
pub proof fn lemma_decimal_injective(a: nat, b: nat)
    ensures
        decimal(a).len() >= 1,
        decimal(a) == decimal(b) ==> a == b,
    decreases a + b,
{
    if a >= 10 {
        lemma_decimal_injective(a / 10, a / 10);
    }
    if b >= 10 {
        lemma_decimal_injective(b / 10, b / 10);
    }
    if decimal(a) == decimal(b) {
        if a < 10 && b < 10 {
            assert(decimal(a)[0] == digit_char(a));
            assert(decimal(b)[0] == digit_char(b));
            lemma_digit_char_injective(a, b);
        } else if a >= 10 && b >= 10 {
            assert(decimal(a).drop_last() =~= decimal(a / 10));
            assert(decimal(b).drop_last() =~= decimal(b / 10));
            lemma_decimal_injective(a / 10, b / 10);
            assert(decimal(a).last() == digit_char(a % 10));
            assert(decimal(b).last() == digit_char(b % 10));
            lemma_digit_char_injective(a % 10, b % 10);
        } else if a < 10 {
            assert(decimal(b).len() >= 2);
        } else {
            assert(decimal(a).len() >= 2);
        }
    }
}

/// The decimal digit for a value below 10.
pub fn digit_char_exec(d: u64) -> (c: char)
    requires
        d < 10,
    ensures
        c == digit_char(d as nat),
{
    ((d + 48) as u8) as char
}

/// Decimal rendering of an unsigned integer.
pub fn u64_decimal(n: u64) -> (s: String)
    ensures
        s@ == decimal(n as nat),
{
    let mut digits: Vec<char> = Vec::new();
    let mut m = n;
    // digits holds the low-order digits of n, most significant first
    while m >= 10
        invariant
            decimal(n as nat) == decimal(m as nat) + digits@,
        decreases m,
    {
        let d = digit_char_exec(m % 10);
        let ghost old_digits = digits@;
        digits.insert(0, d);
        assert(decimal(m as nat) == decimal((m / 10) as nat) + seq![d]);
        assert(digits@ =~= seq![d] + old_digits);
        assert(decimal(n as nat) =~= decimal((m / 10) as nat) + digits@);
        m = m / 10;
    }
    let first = digit_char_exec(m);
    let ghost old_digits = digits@;
    digits.insert(0, first);
    assert(digits@ =~= seq![first] + old_digits);
    assert(decimal(n as nat) =~= digits@);
    string_of(&digits)
}


/// The distinct elements of `s`, each where it first appears.
pub open spec fn first_occurrences<A>(s: Seq<A>) -> Seq<A>
    decreases s.len(),
{
    if s.len() == 0 {
        s
    } else {
        let rest = first_occurrences(s.drop_last());
        if s.drop_last().contains(s.last()) {
            rest
        } else {
            rest.push(s.last())
        }
    }
}

/// `first_occurrences` keeps exactly the elements of `s`, once each.
pub proof fn lemma_first_occurrences<A>(s: Seq<A>)
    ensures
        forall|x: A| #[trigger] first_occurrences(s).contains(x) <==> s.contains(x),
        first_occurrences(s).no_duplicates(),
    decreases s.len(),
{
    if s.len() > 0 {
        let d = s.drop_last();
        lemma_first_occurrences(d);
        assert forall|x: A| s.contains(x) <==> d.contains(x) || x == s.last() by {
            if s.contains(x) {
                let i = choose|i: int| 0 <= i < s.len() && s[i] == x;
                if i < s.len() - 1 {
                    assert(d[i] == x);
                }
            }
            if d.contains(x) {
                let i = choose|i: int| 0 <= i < d.len() && d[i] == x;
                assert(s[i] == x);
            }
            if x == s.last() {
                assert(s[s.len() - 1] == x);
            }
        }
        if !d.contains(s.last()) {
            let r = first_occurrences(d);
            assert forall|x: A| #[trigger] r.push(s.last()).contains(x) <==> r.contains(x) || x
                == s.last() by {
                if r.push(s.last()).contains(x) {
                    let i = choose|i: int| 0 <= i < r.len() + 1 && r.push(s.last())[i] == x;
                    if i < r.len() {
                        assert(r[i] == x);
                    }
                }
                if r.contains(x) {
                    let i = choose|i: int| 0 <= i < r.len() && r[i] == x;
                    assert(r.push(s.last())[i] == x);
                }
                if x == s.last() {
                    assert(r.push(s.last())[r.len() as int] == x);
                }
            }
            let rp = r.push(s.last());
            assert forall|i: int, j: int| 0 <= i < rp.len() && 0 <= j < rp.len() && i != j implies rp[i]
                != rp[j] by {
                if j == r.len() && i < r.len() {
                    assert(r.contains(rp[i]));
                }
                if i == r.len() && j < r.len() {
                    assert(r.contains(rp[j]));
                }
            }
        }
    }
}


/// The concatenation of two strings.
pub fn str_concat(a: &str, b: &str) -> (r: String)
    ensures
        r@ == a@ + b@,
{
    let mut cs = chars_of(a);
    let bs = chars_of(b);
    let mut i: usize = 0;
    while i < bs.len()
        invariant
            i <= bs.len(),
            cs@ == a@ + bs@.take(i as int),
        decreases bs.len() - i,
    {
        cs.push(bs[i]);
        assert(bs@.take(i + 1) =~= bs@.take(i as int).push(bs@[i as int]));
        assert(a@ + bs@.take(i + 1) =~= (a@ + bs@.take(i as int)).push(bs@[i as int]));
        i = i + 1;
    }
    assert(bs@.take(bs.len() as int) =~= bs@);
    string_of(&cs)
}


/// A line that ended with a newline loses one trailing carriage return.
pub open spec fn strip_cr_char(p: Seq<char>) -> Seq<char> {
    if p.len() > 0 && p.last() == '\r' {
        p.drop_last()
    } else {
        p
    }
}

/// Each piece with a trailing carriage return removed.
pub open spec fn strip_all_cr(ps: Seq<Seq<char>>) -> Seq<Seq<char>> {
    ps.map_values(|p: Seq<char>| strip_cr_char(p))
}

/// The lines of a string as `str::lines` yields them: split at `\n`, `\r\n`
/// endings removed, no final empty line after a last newline.
pub open spec fn str_lines(s: Seq<char>) -> Seq<Seq<char>> {
    let ps = split_on(s, '\n');
    let body = strip_all_cr(ps.drop_last());
    if ps.last().len() == 0 {
        body
    } else {
        body.push(ps.last())
    }
}

/// Pieces joined with `sep` between them (`join` of a slice of strings).
pub open spec fn join_with(ls: Seq<Seq<char>>, sep: char) -> Seq<char>
    decreases ls.len(),
{
    if ls.len() == 0 {
        Seq::empty()
    } else if ls.len() == 1 {
        ls[0]
    } else {
        join_with(ls.drop_last(), sep) + seq![sep] + ls.last()
    }
}

/// The views of a list of character vectors.
pub open spec fn char_views(v: Seq<Vec<char>>) -> Seq<Seq<char>> {
    v.map_values(|x: Vec<char>| x@)
}

/// The lines of `s` (`str::lines`), as character vectors.
pub fn lines_of(s: &str) -> (r: Vec<Vec<char>>)
    ensures
        char_views(r@) == str_lines(s@),
{
    let cs = chars_of(s);
    let mut r: Vec<Vec<char>> = Vec::new();
    let mut cur: Vec<char> = Vec::new();
    let mut i: usize = 0;
    while i < cs.len()
        invariant
            i <= cs.len(),
            cs@ == s@,
            split_on(cs@.take(i as int), '\n').len() >= 1,
            cur@ == split_on(cs@.take(i as int), '\n').last(),
            char_views(r@) == strip_all_cr(split_on(cs@.take(i as int), '\n').drop_last()),
        decreases cs.len() - i,
    {
        let ghost pieces = split_on(cs@.take(i as int), '\n');
        assert(cs@.take(i + 1).drop_last() =~= cs@.take(i as int));
        assert(cs@.take(i + 1).last() == cs@[i as int]);
        let c = cs[i];
        if c == '\n' {
            let mut line = cur;
            if line.len() > 0 && line[line.len() - 1] == '\r' {
                line.pop();
            }
            let ghost old_r = r@;
            r.push(line);
            proof {
                assert(pieces =~= pieces.drop_last().push(pieces.last()));
                assert(split_on(cs@.take(i + 1), '\n') == pieces.push(Seq::<char>::empty()));
                assert(split_on(cs@.take(i + 1), '\n').drop_last() =~= pieces);
                assert(strip_all_cr(pieces) =~= strip_all_cr(pieces.drop_last()).push(
                    strip_cr_char(pieces.last()),
                ));
                assert(char_views(r@) =~= char_views(old_r).push(r@[old_r.len() as int]@));
            }
            cur = Vec::new();
        } else {
            cur.push(c);
            assert(split_on(cs@.take(i + 1), '\n') == pieces.update(
                pieces.len() - 1,
                pieces.last().push(c),
            ));
            assert(split_on(cs@.take(i + 1), '\n').drop_last() =~= pieces.drop_last());
        }
        i = i + 1;
    }
    assert(cs@.take(cs.len() as int) =~= cs@);
    if cur.len() > 0 {
        let ghost old_r = r@;
        r.push(cur);
        assert(char_views(r@) =~= char_views(old_r).push(r@[old_r.len() as int]@));
    }
    r
}

/// The pieces of `cs` between occurrences of `sep`, as character vectors.
pub fn split_chars(cs: &Vec<char>, sep: char) -> (r: Vec<Vec<char>>)
    ensures
        char_views(r@) == split_on(cs@, sep),
{
    let mut r: Vec<Vec<char>> = Vec::new();
    let mut cur: Vec<char> = Vec::new();
    let mut i: usize = 0;
    while i < cs.len()
        invariant
            i <= cs.len(),
            split_on(cs@.take(i as int), sep).len() >= 1,
            cur@ == split_on(cs@.take(i as int), sep).last(),
            char_views(r@) == split_on(cs@.take(i as int), sep).drop_last(),
        decreases cs.len() - i,
    {
        let ghost pieces = split_on(cs@.take(i as int), sep);
        assert(cs@.take(i + 1).drop_last() =~= cs@.take(i as int));
        assert(cs@.take(i + 1).last() == cs@[i as int]);
        let c = cs[i];
        if c == sep {
            let ghost old_r = r@;
            let piece = cur;
            r.push(piece);
            proof {
                assert(pieces =~= pieces.drop_last().push(pieces.last()));
                assert(split_on(cs@.take(i + 1), sep) == pieces.push(Seq::<char>::empty()));
                assert(split_on(cs@.take(i + 1), sep).drop_last() =~= pieces);
                assert(char_views(r@) =~= char_views(old_r).push(r@[old_r.len() as int]@));
            }
            cur = Vec::new();
        } else {
            cur.push(c);
            assert(split_on(cs@.take(i + 1), sep) == pieces.update(pieces.len() - 1, pieces.last().push(c)));
            assert(split_on(cs@.take(i + 1), sep).drop_last() =~= pieces.drop_last());
        }
        i = i + 1;
    }
    assert(cs@.take(cs.len() as int) =~= cs@);
    let ghost pieces = split_on(cs@, sep);
    let ghost old_r = r@;
    r.push(cur);
    proof {
        assert(pieces =~= pieces.drop_last().push(pieces.last()));
        assert(char_views(r@) =~= char_views(old_r).push(r@[old_r.len() as int]@));
    }
    r
}

/// Joins lines with `\n` between them.
pub fn join_with_newlines(ls: &Vec<Vec<char>>) -> (s: String)
    ensures
        s@ == join_with(char_views(ls@), '\n'),
{
    let mut out: Vec<char> = Vec::new();
    let mut i: usize = 0;
    while i < ls.len()
        invariant
            i <= ls.len(),
            out@ == join_with(char_views(ls@.take(i as int)), '\n'),
        decreases ls.len() - i,
    {
        let ghost before = out@;
        if i > 0 {
            out.push('\n');
        }
        let line = &ls[i];
        let mut k: usize = 0;
        let ghost base = out@;
        while k < line.len()
            invariant
                k <= line.len(),
                out@ == base + line@.take(k as int),
            decreases line.len() - k,
        {
            out.push(line[k]);
            assert(line@.take(k + 1) =~= line@.take(k as int).push(line@[k as int]));
            k = k + 1;
        }
        proof {
            assert(line@.take(line.len() as int) =~= line@);
            let pre = char_views(ls@.take(i as int));
            let nxt = char_views(ls@.take(i + 1));
            assert(nxt =~= pre.push(line@));
            assert(nxt.drop_last() =~= pre);
            if i == 0 {
                assert(nxt.len() == 1);
                assert(out@ =~= nxt[0]);
            } else {
                assert(out@ =~= before + seq!['\n'] + line@);
            }
        }
        i = i + 1;
    }
    assert(ls@.take(ls.len() as int) =~= ls@);
    string_of(&out)
}


/// The first `limit` elements when a limit is set and exceeded (0 = unlimited).
pub open spec fn capped<A>(s: Seq<A>, limit: usize) -> Seq<A> {
    if limit > 0 && s.len() > limit {
        s.take(limit as int)
    } else {
        s
    }
}


proof fn lemma_trim_start_shape(s: Seq<char>)
    ensures
        trim_start(s).len() == 0 || !is_white_space(trim_start(s)[0]),
        trim_start(trim_start(s)) == trim_start(s),
    decreases s.len(),
{
    if s.len() > 0 && is_white_space(s[0]) {
        lemma_trim_start_shape(s.drop_first());
    }
}

proof fn lemma_trim_end_shape(s: Seq<char>)
    ensures
        trim_end(s).len() == 0 || !is_white_space(trim_end(s).last()),
        trim_end(trim_end(s)) == trim_end(s),
        trim_end(s).len() <= s.len(),
        trim_end(s) == s.take(trim_end(s).len() as int),
    decreases s.len(),
{
    if s.len() > 0 && is_white_space(s.last()) {
        lemma_trim_end_shape(s.drop_last());
        let t = trim_end(s.drop_last());
        assert(s.drop_last().take(t.len() as int) =~= s.take(t.len() as int));
    } else {
        assert(s.take(s.len() as int) =~= s);
    }
}

/// Trimming twice is trimming once; a trimmed text starts and ends with a
/// non-white-space character, or is empty.
pub proof fn law_trim_idempotent(s: Seq<char>)
    ensures
        trim(trim(s)) == trim(s),
        trim(s).len() == 0 || (!is_white_space(trim(s)[0]) && !is_white_space(trim(s).last())),
{
    let a = trim_start(s);
    lemma_trim_start_shape(s);
    lemma_trim_end_shape(a);
    let u = trim_end(a);
    if u.len() > 0 {
        assert(u[0] == a.take(u.len() as int)[0]);
        assert(u[0] == a[0]);
    }
    assert(trim_start(u) == u);
}

proof fn lemma_split_on_pieces_lack_sep(s: Seq<char>, sep: char)
    ensures
        forall|i: int| 0 <= i < split_on(s, sep).len() ==> !(#[trigger] split_on(s, sep)[i]).contains(sep),
    decreases s.len(),
{
    if s.len() > 0 {
        let rest = split_on(s.drop_last(), sep);
        lemma_split_on_pieces_lack_sep(s.drop_last(), sep);
        lemma_split_on_nonempty(s.drop_last(), sep);
        if s.last() != sep {
            let l = rest.last();
            assert(!l.contains(sep)) by {
                assert(rest[rest.len() - 1] == l);
            }
            assert forall|i: int| 0 <= i < l.push(s.last()).len() implies l.push(s.last())[i] != sep by {
                if i < l.len() {
                    assert(l.push(s.last())[i] == l[i]);
                }
            }
            let r = split_on(s, sep);
            assert forall|i: int| 0 <= i < r.len() implies !(#[trigger] r[i]).contains(sep) by {
                if i < rest.len() - 1 {
                    assert(r[i] == rest[i]);
                }
            }
        } else {
            let r = split_on(s, sep);
            assert forall|i: int| 0 <= i < r.len() implies !(#[trigger] r[i]).contains(sep) by {
                if i < rest.len() {
                    assert(r[i] == rest[i]);
                }
            }
        }
    }
}

proof fn lemma_trim_start_suffix(s: Seq<char>)
    ensures
        exists|k: int| 0 <= k <= s.len() && trim_start(s) == s.subrange(k, s.len() as int),
    decreases s.len(),
{
    if s.len() > 0 && is_white_space(s[0]) {
        lemma_trim_start_suffix(s.drop_first());
        let k = choose|k: int|
            0 <= k <= s.drop_first().len() && trim_start(s.drop_first()) == s.drop_first().subrange(
                k,
                s.drop_first().len() as int,
            );
        assert(s.drop_first().subrange(k, s.drop_first().len() as int) =~= s.subrange(k + 1, s.len() as int));
    } else {
        assert(s.subrange(0, s.len() as int) =~= s);
    }
}

/// Trimming keeps a text free of a character it lacked.
proof fn lemma_trim_lacks(s: Seq<char>, c: char)
    requires
        !s.contains(c),
    ensures
        !trim(s).contains(c),
{
    lemma_trim_start_suffix(s);
    let a = trim_start(s);
    let k = choose|k: int| 0 <= k <= s.len() && a == s.subrange(k, s.len() as int);
    lemma_trim_end_shape(a);
    let t = trim(s);
    assert(t == a.take(t.len() as int));
    if t.contains(c) {
        let i = choose|i: int| 0 <= i < t.len() && t[i] == c;
        assert(s[k + i] == c);
    }
}

/// Every item of a comma-separated list is non-empty, trimmed, and holds no
/// comma.
pub proof fn law_csv_items_clean(s: Seq<char>)
    ensures
        forall|i: int|
            0 <= i < csv_items(s).len() ==> {
                &&& (#[trigger] csv_items(s)[i]).len() > 0
                &&& trim(csv_items(s)[i]) == csv_items(s)[i]
                &&& !csv_items(s)[i].contains(',')
            },
{
    let pieces = trim_all(split_on(s, ','));
    let pred = |p: Seq<char>| p.len() > 0;
    assert(csv_items(s) == pieces.filter(pred));
    lemma_split_on_pieces_lack_sep(s, ',');
    assert forall|i: int| 0 <= i < csv_items(s).len() implies {
        &&& (#[trigger] csv_items(s)[i]).len() > 0
        &&& trim(csv_items(s)[i]) == csv_items(s)[i]
        &&& !csv_items(s)[i].contains(',')
    } by {
        let x = csv_items(s)[i];
        pieces.lemma_filter_pred(pred, i);
        assert(pieces.filter(pred).contains(x));
        pieces.lemma_filter_contains_rev(pred, x);
        let w = choose|w: int| 0 <= w < pieces.len() && pieces[w] == x;
        law_trim_idempotent(split_on(s, ',')[w]);
        lemma_trim_lacks(split_on(s, ',')[w], ',');
    }
}

proof fn lemma_split_on_no_sep(b: Seq<char>, sep: char)
    requires
        !b.contains(sep),
    ensures
        split_on(b, sep) == seq![b],
    decreases b.len(),
{
    if b.len() > 0 {
        let d = b.drop_last();
        assert(!d.contains(sep)) by {
            if d.contains(sep) {
                let i = choose|i: int| 0 <= i < d.len() && d[i] == sep;
                assert(b[i] == sep);
            }
        }
        lemma_split_on_no_sep(d, sep);
        assert(b[b.len() - 1] != sep);
        assert(d.push(b.last()) =~= b);
        assert(seq![d].update(0, d.push(b.last())) =~= seq![b]);
    } else {
        assert(b =~= Seq::<char>::empty());
    }
}

proof fn lemma_split_on_join_step(a: Seq<char>, b: Seq<char>, sep: char)
    requires
        !b.contains(sep),
    ensures
        split_on(a + seq![sep] + b, sep) == split_on(a, sep).push(b),
    decreases b.len(),
{
    let x = a + seq![sep] + b;
    if b.len() == 0 {
        assert(x.drop_last() =~= a);
        assert(b =~= Seq::<char>::empty());
    } else {
        let d = b.drop_last();
        assert(!d.contains(sep)) by {
            if d.contains(sep) {
                let i = choose|i: int| 0 <= i < d.len() && d[i] == sep;
                assert(b[i] == sep);
            }
        }
        lemma_split_on_join_step(a, d, sep);
        assert(x.drop_last() =~= a + seq![sep] + d);
        assert(x.last() == b.last());
        assert(b[b.len() - 1] != sep);
        let rest = split_on(a, sep).push(d);
        assert(d.push(b.last()) =~= b);
        assert(rest.last() == d);
        assert(rest.update(rest.len() - 1, rest.last().push(b.last())) =~= split_on(a, sep).push(b));
    }
}

/// Joining pieces that lack `sep` with `sep`, then splitting at `sep`,
/// gives the pieces back.
proof fn lemma_split_join(ls: Seq<Seq<char>>, sep: char)
    requires
        ls.len() >= 1,
        forall|i: int| 0 <= i < ls.len() ==> !(#[trigger] ls[i]).contains(sep),
    ensures
        split_on(join_with(ls, sep), sep) == ls,
    decreases ls.len(),
{
    if ls.len() == 1 {
        lemma_split_on_no_sep(ls[0], sep);
        assert(seq![ls[0]] =~= ls);
    } else {
        let d = ls.drop_last();
        assert forall|i: int| 0 <= i < d.len() implies !(#[trigger] d[i]).contains(sep) by {
            assert(d[i] == ls[i]);
        }
        lemma_split_join(d, sep);
        assert(!ls[ls.len() - 1].contains(sep));
        lemma_split_on_join_step(join_with(d, sep), ls.last(), sep);
        assert(d.push(ls.last()) =~= ls);
    }
}

/// Items that are non-empty, trimmed and free of commas come back unchanged
/// when joined with commas and split again as a comma-separated list.
pub proof fn law_csv_round_trip(items: Seq<Seq<char>>)
    requires
        forall|i: int|
            0 <= i < items.len() ==> {
                &&& (#[trigger] items[i]).len() > 0
                &&& trim(items[i]) == items[i]
                &&& !items[i].contains(',')
            },
    ensures
        csv_items(join_with(items, ',')) == items,
{
    let pred = |p: Seq<char>| p.len() > 0;
    if items.len() == 0 {
        assert(split_on(join_with(items, ','), ',') == seq![Seq::<char>::empty()]);
        assert(trim_all(seq![Seq::<char>::empty()]) =~= seq![trim(Seq::<char>::empty())]);
        assert(trim(Seq::<char>::empty()) =~= Seq::<char>::empty());
        lemma_filter_push(Seq::<Seq<char>>::empty(), Seq::<char>::empty(), pred);
        assert(Seq::<Seq<char>>::empty().filter(pred) =~= Seq::<Seq<char>>::empty()) by {
            reveal(Seq::filter);
        }
        assert(seq![Seq::<char>::empty()] =~= Seq::<Seq<char>>::empty().push(Seq::<char>::empty()));
    } else {
        lemma_split_join(items, ',');
        assert(trim_all(items) =~= items);
        lemma_filter_all(items, pred);
    }
}

/// Filtering keeps a sequence whose elements all pass.
proof fn lemma_filter_all(s: Seq<Seq<char>>, p: spec_fn(Seq<char>) -> bool)
    requires
        forall|i: int| 0 <= i < s.len() ==> p(#[trigger] s[i]),
    ensures
        s.filter(p) == s,
    decreases s.len(),
{
    if s.len() == 0 {
        assert(s.filter(p) =~= s) by {
            reveal(Seq::filter);
        }
    } else {
        let d = s.drop_last();
        assert forall|i: int| 0 <= i < d.len() implies p(#[trigger] d[i]) by {
            assert(d[i] == s[i]);
        }
        lemma_filter_all(d, p);
        assert(p(s[s.len() - 1]));
        lemma_filter_push(d, s.last(), p);
        assert(d.push(s.last()) =~= s);
    }
}
}
