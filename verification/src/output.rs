//! What the result listings print, apart from colour: the printer's
//! settings, the numbering of entries and the digest preview.

use vstd::prelude::*;
use crate::config::Config;
use crate::text::{decimal, u64_decimal};

verus! {

/// Prints results with the colours of a configuration.
pub struct Printer<'a> {
    pub cfg: &'a Config,
}

impl<'a> Printer<'a> {
    /// A printer using `cfg`.
    pub fn new(cfg: &'a Config) -> (p: Self)
        ensures
            p.cfg == cfg,
    {
        Printer { cfg }
    }
}

/// `s` left-padded with `0` to at least `width` characters (`{:0>w$}`).
pub open spec fn zero_padded(s: Seq<char>, width: nat) -> Seq<char> {
    if s.len() < width {
        Seq::new((width - s.len()) as nat, |i: int| '0') + s
    } else {
        s
    }
}

/// The number shown before the `n`-th entry of a listing of `count`
/// entries: `n` zero-padded to the width of `count`.
pub open spec fn entry_label(n: nat, count: nat) -> Seq<char> {
    zero_padded(decimal(n), decimal(count).len())
}

/// Builds `entry_label`.
pub fn entry_number(n: u64, count: u64) -> (s: String)
    ensures
        s@ == entry_label(n as nat, count as nat),
{
    let digits = crate::text::chars_of(u64_decimal(n).as_str());
    let width = crate::text::chars_of(u64_decimal(count).as_str()).len();
    let mut out: Vec<char> = Vec::new();
    let mut k: usize = digits.len();
    while k < width
        invariant
            digits.len() <= k <= width || width <= digits.len() == k,
            out@ == Seq::new((k - digits.len()) as nat, |i: int| '0'),
        decreases width - k,
    {
        out.push('0');
        assert(out@ =~= Seq::new((k + 1 - digits.len()) as nat, |i: int| '0'));
        k = k + 1;
    }
    let mut j: usize = 0;
    let ghost pad = out@;
    while j < digits.len()
        invariant
            j <= digits.len(),
            out@ == pad + digits@.take(j as int),
        decreases digits.len() - j,
    {
        out.push(digits[j]);
        assert(digits@.take(j + 1) =~= digits@.take(j as int).push(digits@[j as int]));
        j = j + 1;
    }
    assert(digits@.take(digits.len() as int) =~= digits@);
    proof {
        if digits.len() >= width {
            assert(pad =~= Seq::<char>::empty());
            assert(out@ =~= digits@);
        }
    }
    crate::text::string_of(&out)
}

/// The first 16 characters of a group's hash (all of it when shorter),
/// enough to tell groups apart in a listing.
pub fn hash_preview(hash: &str) -> (p: String)
    ensures
        p@ == hash@.take(if hash@.len() <= 16 {
            hash@.len() as int
        } else {
            16
        }),
{
    let cs = crate::text::chars_of(hash);
    let n = if cs.len() <= 16 {
        cs.len()
    } else {
        16
    };
    let mut out: Vec<char> = Vec::new();
    let mut i: usize = 0;
    while i < n
        invariant
            i <= n <= cs.len(),
            cs@ == hash@,
            out@ == cs@.take(i as int),
        decreases n - i,
    {
        out.push(cs[i]);
        assert(cs@.take(i + 1) =~= cs@.take(i as int).push(cs@[i as int]));
        i = i + 1;
    }
    crate::text::string_of(&out)
}

}
