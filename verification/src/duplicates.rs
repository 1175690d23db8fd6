//! Duplicate-file detection: candidate filtering, grouping by content digest,
//! name or size, ordering of the groups and the summary of a scan.

use vstd::prelude::*;
use vstd::hash_map::{HashMapWithView, StringHashMap};
use vstd::hash_set::StringHashSet;
use crate::text::{capped, decimal, first_occurrences, lemma_first_occurrences, lemma_filter_push, u64_decimal, views};
use crate::digest::{digest_of, hex_lower, ContentHasher};
use crate::pathorder::{path_le, sort_paths, sorted_by_path};
use crate::config::Config;
use crate::error::FsearchError;
use crate::pattern::{any_glob_matches, any_matches, glob_matches};
use crate::searcher::{default_exclude_list, default_excludes, validate, roots_outcome, RootStatus};

verus! {

broadcast use {vstd::hash_map::group_hash_map_axioms, vstd::std_specs::hash::group_hash_axioms};

/// A file together with the key it is grouped by (a digest, a name, a size).
pub struct KeyedFile {
    pub key: String,
    pub size: u64,
    pub path: String,
}

/// What grouping reads of a file: its key, its size and its path.
pub open spec fn keyed_view(f: KeyedFile) -> (Seq<char>, u64, Seq<char>) {
    (f.key@, f.size, f.path@)
}

/// The keyed views of a list of files.
pub open spec fn keyed_views(fs: Seq<KeyedFile>) -> Seq<(Seq<char>, u64, Seq<char>)> {
    fs.map_values(|f: KeyedFile| keyed_view(f))
}

/// The keys of a list of keyed files.
pub open spec fn keys_of(fs: Seq<(Seq<char>, u64, Seq<char>)>) -> Seq<Seq<char>> {
    fs.map_values(|f: (Seq<char>, u64, Seq<char>)| f.0)
}

/// The paths of the files whose key is `k`, in order.
pub open spec fn paths_with_key(fs: Seq<(Seq<char>, u64, Seq<char>)>, k: Seq<char>) -> Seq<Seq<char>>
    decreases fs.len(),
{
    if fs.len() == 0 {
        Seq::empty()
    } else {
        let rest = paths_with_key(fs.drop_last(), k);
        if fs.last().0 == k {
            rest.push(fs.last().2)
        } else {
            rest
        }
    }
}

/// The size of the first file whose key is `k` (0 when there is none).
pub open spec fn first_size_with_key(fs: Seq<(Seq<char>, u64, Seq<char>)>, k: Seq<char>) -> u64
    decreases fs.len(),
{
    if fs.len() == 0 {
        0
    } else if keys_of(fs.drop_last()).contains(k) {
        first_size_with_key(fs.drop_last(), k)
    } else if fs.last().0 == k {
        fs.last().1
    } else {
        0
    }
}

/// All files that share one key.
pub struct Bucket {
    pub key: String,
    pub size: u64,
    pub paths: Vec<String>,
}

/// `b` gathers the files of `fs` with key `k`.
pub open spec fn is_bucket_of(b: Bucket, fs: Seq<(Seq<char>, u64, Seq<char>)>, k: Seq<char>) -> bool {
    &&& b.key@ == k
    &&& b.size == first_size_with_key(fs, k)
    &&& views(b.paths@) == paths_with_key(fs, k)
}

/// Total number of paths held by a list of buckets.
pub open spec fn bucket_total(bs: Seq<Bucket>) -> nat
    decreases bs.len(),
{
    if bs.len() == 0 {
        0
    } else {
        bucket_total(bs.drop_last()) + bs.last().paths@.len()
    }
}

proof fn lemma_keys_of_push(fs: Seq<(Seq<char>, u64, Seq<char>)>, f: (Seq<char>, u64, Seq<char>))
    ensures
        keys_of(fs.push(f)) == keys_of(fs).push(f.0),
{
    assert(keys_of(fs.push(f)) =~= keys_of(fs).push(f.0));
}

proof fn lemma_paths_absent(fs: Seq<(Seq<char>, u64, Seq<char>)>, k: Seq<char>)
    requires
        !keys_of(fs).contains(k),
    ensures
        paths_with_key(fs, k) == Seq::<Seq<char>>::empty(),
    decreases fs.len(),
{
    if fs.len() > 0 {
        let d = fs.drop_last();
        assert(keys_of(fs) == keys_of(d).push(fs.last().0)) by {
            lemma_keys_of_push(d, fs.last());
            assert(d.push(fs.last()) =~= fs);
        }
        if keys_of(d).contains(k) {
            let i = choose|i: int| 0 <= i < keys_of(d).len() && keys_of(d)[i] == k;
            assert(keys_of(fs)[i] == k);
        }
        assert(keys_of(fs)[fs.len() - 1] == fs.last().0);
        lemma_paths_absent(d, k);
    }
}

proof fn lemma_bucket_total_update(bs: Seq<Bucket>, g: int, b: Bucket)
    requires
        0 <= g < bs.len(),
    ensures
        bucket_total(bs.update(g, b)) == bucket_total(bs) - bs[g].paths@.len() + b.paths@.len(),
    decreases bs.len(),
{
    if g < bs.len() - 1 {
        lemma_bucket_total_update(bs.drop_last(), g, b);
        assert(bs.update(g, b).drop_last() =~= bs.drop_last().update(g, b));
    } else {
        assert(bs.update(g, b).drop_last() =~= bs.drop_last());
    }
}

/// Gathers the files by key: one bucket per distinct key, in the order the
/// keys first appear, each holding the paths of its files in their order and
/// the size of the first of them.
pub fn group_by_key(fs: &Vec<KeyedFile>) -> (r: Vec<Bucket>)
    ensures
        r@.len() == first_occurrences(keys_of(keyed_views(fs@))).len(),
        forall|j: int|
            0 <= j < r@.len() ==> is_bucket_of(
                #[trigger] r@[j],
                keyed_views(fs@),
                first_occurrences(keys_of(keyed_views(fs@)))[j],
            ),
        bucket_total(r@) == fs@.len(),
{
    let ghost kv = keyed_views(fs@);
    let mut r: Vec<Bucket> = Vec::new();
    let mut idx: StringHashMap<usize> = StringHashMap::new();
    let mut i: usize = 0;
    while i < fs.len()
        invariant
            i <= fs.len(),
            kv == keyed_views(fs@),
            r@.len() == first_occurrences(keys_of(kv.take(i as int))).len(),
            forall|j: int|
                0 <= j < r@.len() ==> is_bucket_of(
                    #[trigger] r@[j],
                    kv.take(i as int),
                    first_occurrences(keys_of(kv.take(i as int)))[j],
                ),
            forall|k: Seq<char>| #[trigger]
                idx@.contains_key(k) <==> keys_of(kv.take(i as int)).contains(k),
            forall|k: Seq<char>| #[trigger]
                idx@.contains_key(k) ==> idx@[k] < r@.len() && first_occurrences(
                    keys_of(kv.take(i as int)),
                )[idx@[k] as int] == k,
            bucket_total(r@) == i,
        decreases fs.len() - i,
    {
        let ghost pre = kv.take(i as int);
        let ghost f = kv[i as int];
        let ghost k = f.0;
        let ghost fo = first_occurrences(keys_of(pre));
        let ghost old_r = r@;
        proof {
            assert(kv.take(i + 1) =~= pre.push(f));
            lemma_keys_of_push(pre, f);
            assert(pre.push(f).drop_last() =~= pre);
            assert(keys_of(pre).push(k).drop_last() =~= keys_of(pre));
            lemma_first_occurrences(keys_of(pre));
        }
        match idx.get(fs[i].key.as_str()) {
            Some(g) => {
                let g = *g;
                r[g].paths.push(fs[i].path.clone());
                proof {
                    assert(first_occurrences(keys_of(pre.push(f))) == fo);
                    assert forall|j: int| 0 <= j < r@.len() implies is_bucket_of(
                        #[trigger] r@[j],
                        pre.push(f),
                        fo[j],
                    ) by {
                        assert(fo.contains(fo[j]));
                        assert(keys_of(pre).contains(fo[j]));
                        if j == g {
                            assert(views(r@[j].paths@) =~= views(old_r[j].paths@).push(f.2));
                        } else {
                            assert(fo[j] != k);
                        }
                    }
                    lemma_bucket_total_update(old_r, g as int, r@[g as int]);
                    assert(r@ == old_r.update(g as int, r@[g as int]));
                }
            },
            None => {
                let mut paths: Vec<String> = Vec::new();
                paths.push(fs[i].path.clone());
                let b = Bucket { key: fs[i].key.clone(), size: fs[i].size, paths };
                idx.insert(fs[i].key.clone(), r.len());
                r.push(b);
                proof {
                    assert(first_occurrences(keys_of(pre.push(f))) == fo.push(k));
                    lemma_paths_absent(pre, k);
                    assert forall|j: int| 0 <= j < r@.len() implies is_bucket_of(
                        #[trigger] r@[j],
                        pre.push(f),
                        fo.push(k)[j],
                    ) by {
                        if j < old_r.len() {
                            assert(fo.contains(fo[j]));
                        assert(keys_of(pre).contains(fo[j]));
                            assert(fo[j] != k);
                        } else {
                            assert(views(r@[j].paths@) =~= seq![f.2]);
                            assert(paths_with_key(pre.push(f), k) =~= seq![f.2]);
                        }
                    }
                    assert(r@.drop_last() =~= old_r);
                }
            },
        }
        i = i + 1;
    }
    assert(kv.take(fs.len() as int) =~= kv);
    r
}


/// A group of files found to be duplicates of one another.
pub struct DuplicateGroup {
    /// Hex-encoded content digest, or `name:<name>` / `size:<n>` for the
    /// name and size detection modes.
    pub hash: String,
    /// File size of the group (that of its first file).
    pub size: u64,
    /// All paths in this group (at least two), in path order.
    pub paths: Vec<String>,
    /// Total wasted space: `size * (paths.len() - 1)`.
    pub wasted_bytes: u64,
}

/// The keys that at least two files share, in the order they first appear.
pub open spec fn repeated_keys(fs: Seq<(Seq<char>, u64, Seq<char>)>) -> Seq<Seq<char>> {
    repeated_among(fs, first_occurrences(keys_of(fs)))
}

/// `x`, or `u64::MAX` when it does not fit (what `u64::saturating_mul`
/// gives for a product `x`).
pub open spec fn saturated(x: int) -> int {
    if x <= u64::MAX {
        x
    } else {
        u64::MAX as int
    }
}

/// The bytes wasted by the files with key `k`: the size of the first of
/// them times the number of the others.
pub open spec fn key_waste(fs: Seq<(Seq<char>, u64, Seq<char>)>, k: Seq<char>) -> int {
    if paths_with_key(fs, k).len() >= 1 {
        first_size_with_key(fs, k) * (paths_with_key(fs, k).len() - 1)
    } else {
        0
    }
}

/// The wasted bytes recorded for key `k`: saturated when `saturate` holds
/// (the name mode), exact otherwise.
pub open spec fn waste_term(fs: Seq<(Seq<char>, u64, Seq<char>)>, k: Seq<char>, saturate: bool) -> int {
    if saturate {
        saturated(key_waste(fs, k))
    } else {
        key_waste(fs, k)
    }
}

/// The recorded wasted bytes of the keys `ks`, added up.
pub open spec fn waste_sum(fs: Seq<(Seq<char>, u64, Seq<char>)>, ks: Seq<Seq<char>>, saturate: bool) -> int
    decreases ks.len(),
{
    if ks.len() == 0 {
        0
    } else {
        waste_sum(fs, ks.drop_last(), saturate) + waste_term(fs, ks.last(), saturate)
    }
}

/// The wasted bytes of every key that two files share fit in `u64`: the
/// condition under which each group's waste is computed without overflow.
pub open spec fn products_fit(fs: Seq<(Seq<char>, u64, Seq<char>)>) -> bool {
    forall|k: Seq<char>| #[trigger] paths_with_key(fs, k).len() >= 2 ==> key_waste(fs, k) <= u64::MAX
}

/// The wasted bytes of all groups together fit in `u64`: the condition under
/// which the groups and the summary of a scan are computed without overflow.
pub open spec fn wastes_fit(fs: Seq<(Seq<char>, u64, Seq<char>)>, saturate: bool) -> bool {
    waste_sum(fs, repeated_keys(fs), saturate) <= u64::MAX
}

/// `g` is the group of the files of `fs` with key `k`, its hash being `label`
/// followed by the key.
pub open spec fn is_group_of(
    g: DuplicateGroup,
    fs: Seq<(Seq<char>, u64, Seq<char>)>,
    k: Seq<char>,
    label: Seq<char>,
) -> bool {
    &&& g.hash@ == label + k
    &&& g.size == first_size_with_key(fs, k)
    &&& views(g.paths@).to_multiset() == paths_with_key(fs, k).to_multiset()
    &&& sorted_by_path(views(g.paths@))
    &&& g.paths@.len() >= 2
    &&& g.wasted_bytes == saturated(g.size * (g.paths@.len() - 1))
}

/// Sum over groups of the number of paths.
pub open spec fn total_paths(gs: Seq<DuplicateGroup>) -> nat
    decreases gs.len(),
{
    if gs.len() == 0 {
        0
    } else {
        total_paths(gs.drop_last()) + gs.last().paths@.len()
    }
}

/// Sum over groups of the number of duplicates (paths beyond the first).
pub open spec fn total_duplicates(gs: Seq<DuplicateGroup>) -> nat
    decreases gs.len(),
{
    if gs.len() == 0 {
        0
    } else {
        total_duplicates(gs.drop_last()) + (if gs.last().paths@.len() > 0 {
            (gs.last().paths@.len() - 1) as nat
        } else {
            0
        })
    }
}

/// Sum over groups of the wasted bytes.
pub open spec fn total_wasted(gs: Seq<DuplicateGroup>) -> nat
    decreases gs.len(),
{
    if gs.len() == 0 {
        0
    } else {
        total_wasted(gs.drop_last()) + gs.last().wasted_bytes as nat
    }
}

/// The sums of a list of groups fit the summary's integer types.
pub open spec fn totals_fit(gs: Seq<DuplicateGroup>) -> bool {
    total_wasted(gs) <= u64::MAX && total_paths(gs) <= usize::MAX
}

proof fn lemma_waste_term_nonneg(fs: Seq<(Seq<char>, u64, Seq<char>)>, k: Seq<char>, saturate: bool)
    ensures
        waste_term(fs, k, saturate) >= 0,
{
    let l = paths_with_key(fs, k).len();
    if l >= 1 {
        let s = first_size_with_key(fs, k) as int;
        assert(s * (l - 1) >= 0) by (nonlinear_arith)
            requires
                s >= 0,
                l >= 1,
        ;
    }
}

proof fn lemma_waste_sum_push(
    fs: Seq<(Seq<char>, u64, Seq<char>)>,
    ks: Seq<Seq<char>>,
    k: Seq<char>,
    saturate: bool,
)
    ensures
        waste_sum(fs, ks.push(k), saturate) == waste_sum(fs, ks, saturate) + waste_term(fs, k, saturate),
{
    assert(ks.push(k).drop_last() =~= ks);
}

/// A term never exceeds the sum it is part of.
proof fn lemma_term_le_sum(fs: Seq<(Seq<char>, u64, Seq<char>)>, ks: Seq<Seq<char>>, k: Seq<char>, saturate: bool)
    requires
        ks.contains(k),
    ensures
        waste_term(fs, k, saturate) <= waste_sum(fs, ks, saturate),
    decreases ks.len(),
{
    let d = ks.drop_last();
    lemma_waste_term_nonneg(fs, ks.last(), saturate);
    if ks.last() != k {
        let w = choose|w: int| 0 <= w < ks.len() && ks[w] == k;
        assert(d[w] == k);
        lemma_term_le_sum(fs, d, k, saturate);
    } else {
        lemma_sum_nonneg(fs, d, saturate);
    }
}

proof fn lemma_sum_nonneg(fs: Seq<(Seq<char>, u64, Seq<char>)>, ks: Seq<Seq<char>>, saturate: bool)
    ensures
        waste_sum(fs, ks, saturate) >= 0,
    decreases ks.len(),
{
    if ks.len() > 0 {
        lemma_sum_nonneg(fs, ks.drop_last(), saturate);
        lemma_waste_term_nonneg(fs, ks.last(), saturate);
    }
}

/// The recorded waste of the repeated keys among a prefix of `ks` is at
/// most that of the repeated keys among all of `ks`.
proof fn lemma_waste_sum_prefix(
    fs: Seq<(Seq<char>, u64, Seq<char>)>,
    ks: Seq<Seq<char>>,
    m: int,
    saturate: bool,
)
    requires
        0 <= m <= ks.len(),
    ensures
        waste_sum(fs, repeated_among(fs, ks.take(m)), saturate) <= waste_sum(
            fs,
            repeated_among(fs, ks),
            saturate,
        ),
    decreases ks.len(),
{
    if m == ks.len() {
        assert(ks.take(m) =~= ks);
    } else {
        let d = ks.drop_last();
        assert(d.take(m) =~= ks.take(m));
        lemma_waste_sum_prefix(fs, d, m, saturate);
        assert(d.push(ks.last()) =~= ks);
        lemma_repeated_among_push(fs, d, ks.last());
        lemma_waste_sum_push(fs, repeated_among(fs, d), ks.last(), saturate);
        lemma_waste_term_nonneg(fs, ks.last(), saturate);
    }
}

/// When the wasted bytes of all groups fit, so does the waste of each key
/// that two files share.
proof fn lemma_wastes_fit_products(fs: Seq<(Seq<char>, u64, Seq<char>)>)
    requires
        wastes_fit(fs, false),
    ensures
        products_fit(fs),
{
    let fo = first_occurrences(keys_of(fs));
    let pred = |k: Seq<char>| paths_with_key(fs, k).len() >= 2;
    lemma_first_occurrences(keys_of(fs));
    assert forall|k: Seq<char>| #[trigger] paths_with_key(fs, k).len() >= 2 implies key_waste(fs, k)
        <= u64::MAX by {
        if !keys_of(fs).contains(k) {
            lemma_paths_absent(fs, k);
        }
        assert(fo.contains(k));
        let i = choose|i: int| 0 <= i < fo.len() && fo[i] == k;
        fo.lemma_filter_contains(pred, i);
        assert(repeated_keys(fs) == fo.filter(pred));
        lemma_term_le_sum(fs, repeated_keys(fs), k, false);
    }
}

/// Groups whose keys' wastes fit record the exact product.
proof fn lemma_groups_exact_waste(gs: Seq<DuplicateGroup>, fs: Seq<(Seq<char>, u64, Seq<char>)>, label: Seq<char>)
    requires
        groups_for(gs, fs, label),
        products_fit(fs),
    ensures
        forall|j: int|
            0 <= j < gs.len() ==> (#[trigger] gs[j]).wasted_bytes == gs[j].size * (gs[j].paths@.len() - 1),
{
    broadcast use vstd::seq_lib::group_to_multiset_ensures;

    assert forall|j: int| 0 <= j < gs.len() implies (#[trigger] gs[j]).wasted_bytes == gs[j].size * (
    gs[j].paths@.len() - 1) by {
        let k = repeated_keys(fs)[j];
        assert(is_group_of(gs[j], fs, k, label));
        assert(views(gs[j].paths@).len() == paths_with_key(fs, k).len()) by {
            assert(views(gs[j].paths@).to_multiset().len() == paths_with_key(fs, k).to_multiset().len());
        }
        assert(views(gs[j].paths@).len() == gs[j].paths@.len());
        assert(paths_with_key(fs, k).len() >= 2);
    }
}

/// `u64::saturating_mul`: the product, or `u64::MAX` when it does not fit.
fn saturating_mul_u64(a: u64, b: u64) -> (r: u64)
    ensures
        r == saturated(a * b),
{
    match a.checked_mul(b) {
        Some(p) => p,
        None => u64::MAX,
    }
}

/// The keys among `ks` that at least two files of `fs` share.
pub open spec fn repeated_among(fs: Seq<(Seq<char>, u64, Seq<char>)>, ks: Seq<Seq<char>>) -> Seq<
    Seq<char>,
> {
    ks.filter(|k: Seq<char>| paths_with_key(fs, k).len() >= 2)
}

proof fn lemma_repeated_among_push(
    fs: Seq<(Seq<char>, u64, Seq<char>)>,
    ks: Seq<Seq<char>>,
    k: Seq<char>,
)
    ensures
        repeated_among(fs, ks.push(k)) == (if paths_with_key(fs, k).len() >= 2 {
            repeated_among(fs, ks).push(k)
        } else {
            repeated_among(fs, ks)
        }),
{
    lemma_filter_push(ks, k, |k: Seq<char>| paths_with_key(fs, k).len() >= 2);
}

proof fn lemma_bucket_total_prefix(bs: Seq<Bucket>, j: int)
    requires
        0 <= j <= bs.len(),
    ensures
        bucket_total(bs.take(j)) <= bucket_total(bs),
    decreases bs.len(),
{
    if j < bs.len() {
        assert(bs.drop_last().take(j) =~= bs.take(j));
        lemma_bucket_total_prefix(bs.drop_last(), j);
    } else {
        assert(bs.take(j) =~= bs);
    }
}

/// Turns the buckets with at least two files into duplicate groups, each
/// hash being `label` followed by the key.
fn groups_from_buckets(
    fs: &Vec<KeyedFile>,
    buckets: Vec<Bucket>,
    label: &str,
    saturate: bool,
) -> (r: Vec<DuplicateGroup>)
    requires
        !saturate ==> products_fit(keyed_views(fs@)),
        buckets@.len() == first_occurrences(keys_of(keyed_views(fs@))).len(),
        forall|j: int|
            0 <= j < buckets@.len() ==> is_bucket_of(
                #[trigger] buckets@[j],
                keyed_views(fs@),
                first_occurrences(keys_of(keyed_views(fs@)))[j],
            ),
        bucket_total(buckets@) == fs@.len(),
    ensures
        r@.len() == repeated_keys(keyed_views(fs@)).len(),
        forall|j: int|
            0 <= j < r@.len() ==> is_group_of(
                #[trigger] r@[j],
                keyed_views(fs@),
                repeated_keys(keyed_views(fs@))[j],
                label@,
            ),
        total_wasted(r@) == waste_sum(keyed_views(fs@), repeated_keys(keyed_views(fs@)), saturate),
        total_paths(r@) <= fs@.len(),
{
    let ghost kv = keyed_views(fs@);
    let ghost fo = first_occurrences(keys_of(kv));
    let ghost n = fs@.len();
    let ghost orig = buckets@;
    let mut buckets = buckets;
    let mut r: Vec<DuplicateGroup> = Vec::new();
    let mut j: usize = 0;
    while j < buckets.len()
        invariant
            buckets@.len() == orig.len() == fo.len(),
            j <= orig.len(),
            n == fs@.len(),
            kv == keyed_views(fs@),
            !saturate ==> products_fit(kv),
            bucket_total(orig) == n,
            forall|t: int| j <= t < orig.len() ==> #[trigger] buckets@[t] == orig[t],
            forall|t: int| 0 <= t < orig.len() ==> is_bucket_of(#[trigger] orig[t], kv, fo[t]),
            r@.len() == repeated_among(kv, fo.take(j as int)).len(),
            forall|t: int|
                0 <= t < r@.len() ==> is_group_of(
                    #[trigger] r@[t],
                    kv,
                    repeated_among(kv, fo.take(j as int))[t],
                    label@,
                ),
            total_wasted(r@) == waste_sum(kv, repeated_among(kv, fo.take(j as int)), saturate),
            total_paths(r@) <= bucket_total(orig.take(j as int)),
        decreases orig.len() - j,
    {
        let ghost b = orig[j as int];
        let ghost k = fo[j as int];
        proof {
            assert(fo.take(j + 1) =~= fo.take(j as int).push(k));
            lemma_repeated_among_push(kv, fo.take(j as int), k);
            assert(orig.take(j + 1).drop_last() =~= orig.take(j as int));
            lemma_bucket_total_prefix(orig, j + 1);
            assert(views(b.paths@).len() == b.paths@.len());
        }
        let l = buckets[j].paths.len();
        if l >= 2 {
            let mut paths: Vec<String> = Vec::new();
            std::mem::swap(&mut paths, &mut buckets[j].paths);
            let size = buckets[j].size;
            let sorted = sort_paths(paths);
            let hash = crate::text::str_concat(label, buckets[j].key.as_str());
            assert(key_waste(kv, k) == size * (l - 1));
            let wasted = if saturate {
                saturating_mul_u64(size, (l - 1) as u64)
            } else {
                assert(paths_with_key(kv, k).len() >= 2);
                size * ((l - 1) as u64)
            };
            let ghost old_r = r@;
            r.push(DuplicateGroup { hash, size, paths: sorted, wasted_bytes: wasted });
            proof {
                assert(r@.drop_last() =~= old_r);
                lemma_waste_sum_push(kv, repeated_among(kv, fo.take(j as int)), k, saturate);
                assert forall|t: int| 0 <= t < r@.len() implies is_group_of(
                    #[trigger] r@[t],
                    kv,
                    repeated_among(kv, fo.take(j + 1))[t],
                    label@,
                ) by {
                    if t < old_r.len() {
                        assert(r@[t] == old_r[t]);
                    }
                }
            }
        }
        j = j + 1;
    }
    assert(fo.take(fo.len() as int) =~= fo);
    assert(orig.take(orig.len() as int) =~= orig);
    r
}


/// Groups files by content digest: `hashed` holds each candidate file with
/// its hex digest as key; the groups are those of the digests that at least
/// two files share, in the order the digests first appear. Each group's
/// wasted bytes are its size times the number of its other files.
pub fn group_by_content(hashed: &Vec<KeyedFile>) -> (r: Vec<DuplicateGroup>)
    requires
        products_fit(keyed_views(hashed@)),
    ensures
        groups_for(r@, keyed_views(hashed@), Seq::<char>::empty()),
        forall|j: int|
            0 <= j < r@.len() ==> (#[trigger] r@[j]).wasted_bytes == r@[j].size * (r@[j].paths@.len() - 1),
        total_wasted(r@) == waste_sum(keyed_views(hashed@), repeated_keys(keyed_views(hashed@)), false),
        total_paths(r@) <= hashed@.len(),
{
    let buckets = group_by_key(hashed);
    let r = groups_from_buckets(hashed, buckets, "", false);
    proof {
        reveal_strlit("");
        assert(""@ =~= Seq::<char>::empty());
        lemma_groups_exact_waste(r@, keyed_views(hashed@), Seq::<char>::empty());
    }
    r
}

/// One file considered for duplicate detection.
pub struct FileEntry {
    pub path: String,
    pub name: String,
    pub size: u64,
}

/// Files keyed by name.
pub open spec fn name_keyed(fs: Seq<FileEntry>) -> Seq<(Seq<char>, u64, Seq<char>)> {
    fs.map_values(|f: FileEntry| (f.name@, f.size, f.path@))
}

/// Files keyed by the decimal rendering of their size.
pub open spec fn size_keyed(fs: Seq<FileEntry>) -> Seq<(Seq<char>, u64, Seq<char>)> {
    fs.map_values(|f: FileEntry| (decimal(f.size as nat), f.size, f.path@))
}

/// The files keyed by name.
fn name_keyed_files(files: &Vec<FileEntry>) -> (keyed: Vec<KeyedFile>)
    ensures
        keyed_views(keyed@) == name_keyed(files@),
{
    let mut keyed: Vec<KeyedFile> = Vec::new();
    let mut i: usize = 0;
    while i < files.len()
        invariant
            i <= files.len(),
            keyed_views(keyed@) == name_keyed(files@.take(i as int)),
        decreases files.len() - i,
    {
        let ghost old_k = keyed@;
        keyed.push(
            KeyedFile { key: files[i].name.clone(), size: files[i].size, path: files[i].path.clone() },
        );
        assert(keyed_views(keyed@) =~= keyed_views(old_k).push(keyed_view(keyed@[i as int])));
        assert(name_keyed(files@.take(i + 1)) =~= name_keyed(files@.take(i as int)).push(
            (files@[i as int].name@, files@[i as int].size, files@[i as int].path@),
        ));
        i = i + 1;
    }
    assert(files@.take(files.len() as int) =~= files@);
    keyed
}

/// The files keyed by the decimal rendering of their size.
fn size_keyed_files(files: &Vec<FileEntry>) -> (keyed: Vec<KeyedFile>)
    ensures
        keyed_views(keyed@) == size_keyed(files@),
{
    let mut keyed: Vec<KeyedFile> = Vec::new();
    let mut i: usize = 0;
    while i < files.len()
        invariant
            i <= files.len(),
            keyed_views(keyed@) == size_keyed(files@.take(i as int)),
        decreases files.len() - i,
    {
        let ghost old_k = keyed@;
        keyed.push(
            KeyedFile {
                key: u64_decimal(files[i].size),
                size: files[i].size,
                path: files[i].path.clone(),
            },
        );
        assert(keyed_views(keyed@) =~= keyed_views(old_k).push(keyed_view(keyed@[i as int])));
        assert(size_keyed(files@.take(i + 1)) =~= size_keyed(files@.take(i as int)).push(
            (decimal(files@[i as int].size as nat), files@[i as int].size, files@[i as int].path@),
        ));
        i = i + 1;
    }
    assert(files@.take(files.len() as int) =~= files@);
    keyed
}

/// Groups files that share a file name (in different directories); the hash
/// of a group is `name:` followed by the name, and its wasted bytes are its
/// size times the number of its other files, saturated at `u64::MAX`.
pub fn group_by_name(files: &Vec<FileEntry>) -> (r: Vec<DuplicateGroup>)
    ensures
        groups_for(r@, name_keyed(files@), "name:"@),
        total_wasted(r@) == waste_sum(name_keyed(files@), repeated_keys(name_keyed(files@)), true),
        total_paths(r@) <= files@.len(),
{
    let keyed = name_keyed_files(files);
    let buckets = group_by_key(&keyed);
    groups_from_buckets(&keyed, buckets, "name:", true)
}

/// Groups files that share a byte count; the hash of a group is `size:`
/// followed by the size in decimal, and its wasted bytes are its size times
/// the number of its other files.
pub fn group_by_size(files: &Vec<FileEntry>) -> (r: Vec<DuplicateGroup>)
    requires
        products_fit(size_keyed(files@)),
    ensures
        groups_for(r@, size_keyed(files@), "size:"@),
        forall|j: int|
            0 <= j < r@.len() ==> (#[trigger] r@[j]).wasted_bytes == r@[j].size * (r@[j].paths@.len() - 1),
        total_wasted(r@) == waste_sum(size_keyed(files@), repeated_keys(size_keyed(files@)), false),
        total_paths(r@) <= files@.len(),
{
    let keyed = size_keyed_files(files);
    let buckets = group_by_key(&keyed);
    let r = groups_from_buckets(&keyed, buckets, "size:", false);
    proof {
        lemma_groups_exact_waste(r@, size_keyed(files@), "size:"@);
    }
    r
}


/// What is compared of a file entry: its path, its name and its size.
pub open spec fn entry_view(f: FileEntry) -> (Seq<char>, Seq<char>, u64) {
    (f.path@, f.name@, f.size)
}

/// The views of a list of file entries.
pub open spec fn entry_views(fs: Seq<FileEntry>) -> Seq<(Seq<char>, Seq<char>, u64)> {
    fs.map_values(|f: FileEntry| entry_view(f))
}

/// How many entries have size `s`.
pub open spec fn size_count(es: Seq<(Seq<char>, Seq<char>, u64)>, s: u64) -> nat
    decreases es.len(),
{
    if es.len() == 0 {
        0
    } else {
        size_count(es.drop_last(), s) + (if es.last().2 == s {
            1nat
        } else {
            0nat
        })
    }
}

/// The entries of `es` whose size some other entry of `ctx` shares.
pub open spec fn with_shared_size(
    ctx: Seq<(Seq<char>, Seq<char>, u64)>,
    es: Seq<(Seq<char>, Seq<char>, u64)>,
) -> Seq<(Seq<char>, Seq<char>, u64)> {
    es.filter(|e: (Seq<char>, Seq<char>, u64)| size_count(ctx, e.2) >= 2)
}

proof fn lemma_with_shared_size_push(
    ctx: Seq<(Seq<char>, Seq<char>, u64)>,
    es: Seq<(Seq<char>, Seq<char>, u64)>,
    e: (Seq<char>, Seq<char>, u64),
)
    ensures
        with_shared_size(ctx, es.push(e)) == (if size_count(ctx, e.2) >= 2 {
            with_shared_size(ctx, es).push(e)
        } else {
            with_shared_size(ctx, es)
        }),
{
    lemma_filter_push(es, e, |e: (Seq<char>, Seq<char>, u64)| size_count(ctx, e.2) >= 2);
}

proof fn lemma_size_count_le(es: Seq<(Seq<char>, Seq<char>, u64)>, s: u64)
    ensures
        size_count(es, s) <= es.len(),
    decreases es.len(),
{
    if es.len() > 0 {
        lemma_size_count_le(es.drop_last(), s);
    }
}

/// A copy of a file entry.
pub fn copy_entry(f: &FileEntry) -> (c: FileEntry)
    ensures
        entry_view(c) == entry_view(*f),
{
    FileEntry { path: f.path.clone(), name: f.name.clone(), size: f.size }
}

/// The files whose size at least one other file shares, in their order:
/// only these can have identical content.
pub fn content_candidates(files: &Vec<FileEntry>) -> (r: Vec<FileEntry>)
    ensures
        entry_views(r@) == with_shared_size(entry_views(files@), entry_views(files@)),
{
    let ghost ev = entry_views(files@);
    let mut counts: HashMapWithView<u64, usize> = HashMapWithView::new();
    let mut i: usize = 0;
    while i < files.len()
        invariant
            i <= files.len(),
            ev == entry_views(files@),
            forall|s: u64| #[trigger]
                counts@.contains_key(s) <==> size_count(ev.take(i as int), s) > 0,
            forall|s: u64| #[trigger]
                counts@.contains_key(s) ==> counts@[s] == size_count(ev.take(i as int), s),
        decreases files.len() - i,
    {
        let s = files[i].size;
        proof {
            assert(ev.take(i + 1).drop_last() =~= ev.take(i as int));
            assert(ev.take(i + 1).last() == ev[i as int]);
            lemma_size_count_le(ev.take(i as int), s);
        }
        let c: usize = match counts.get(&s) {
            Some(c) => *c,
            None => 0,
        };
        counts.insert(s, c + 1);
        i = i + 1;
    }
    assert(ev.take(files.len() as int) =~= ev);
    let mut r: Vec<FileEntry> = Vec::new();
    let mut j: usize = 0;
    while j < files.len()
        invariant
            j <= files.len(),
            ev == entry_views(files@),
            forall|s: u64| #[trigger] counts@.contains_key(s) <==> size_count(ev, s) > 0,
            forall|s: u64| #[trigger] counts@.contains_key(s) ==> counts@[s] == size_count(ev, s),
            entry_views(r@) == with_shared_size(ev, ev.take(j as int)),
        decreases files.len() - j,
    {
        proof {
            assert(ev.take(j + 1) =~= ev.take(j as int).push(ev[j as int]));
            lemma_with_shared_size_push(ev, ev.take(j as int), ev[j as int]);
        }
        let n: usize = match counts.get(&files[j].size) {
            Some(c) => *c,
            None => 0,
        };
        if n >= 2 {
            let ghost old_r = r@;
            r.push(copy_entry(&files[j]));
            assert(entry_views(r@) =~= entry_views(old_r).push(ev[j as int]));
        }
        j = j + 1;
    }
    assert(ev.take(files.len() as int) =~= ev);
    r
}

/// The entries with their later repetitions of a path removed.
pub open spec fn first_by_path(es: Seq<(Seq<char>, Seq<char>, u64)>) -> Seq<
    (Seq<char>, Seq<char>, u64),
>
    decreases es.len(),
{
    if es.len() == 0 {
        es
    } else {
        let rest = first_by_path(es.drop_last());
        if es.drop_last().map_values(|e: (Seq<char>, Seq<char>, u64)| e.0).contains(es.last().0) {
            rest
        } else {
            rest.push(es.last())
        }
    }
}

/// The paths of a list of entries.
pub open spec fn entry_paths(es: Seq<(Seq<char>, Seq<char>, u64)>) -> Seq<Seq<char>> {
    es.map_values(|e: (Seq<char>, Seq<char>, u64)| e.0)
}

/// Drops every entry whose path an earlier entry already has. Given the
/// canonical paths of the files collected, roots that overlap (a directory
/// and one below it) then never list a file twice.
pub fn dedup_by_path(files: Vec<FileEntry>) -> (r: Vec<FileEntry>)
    ensures
        entry_views(r@) == first_by_path(entry_views(files@)),
        entry_paths(entry_views(r@)).no_duplicates(),
        forall|p: Seq<char>| #[trigger] entry_paths(entry_views(r@)).contains(p) <==> entry_paths(
            entry_views(files@),
        ).contains(p),
{
    let ghost ev = entry_views(files@);
    let mut seen = StringHashSet::new();
    let mut r: Vec<FileEntry> = Vec::new();
    let mut i: usize = 0;
    while i < files.len()
        invariant
            i <= files.len(),
            ev == entry_views(files@),
            entry_views(r@) == first_by_path(ev.take(i as int)),
            forall|p: Seq<char>| #[trigger] seen@.contains(p) <==> entry_paths(ev.take(i as int)).contains(p),
            entry_paths(entry_views(r@)).no_duplicates(),
            forall|p: Seq<char>| #[trigger] entry_paths(entry_views(r@)).contains(p) <==> entry_paths(ev.take(i as int)).contains(p),
        decreases files.len() - i,
    {
        let ghost pre = ev.take(i as int);
        let ghost e = ev[i as int];
        proof {
            assert(ev.take(i + 1) =~= pre.push(e));
            assert(pre.push(e).drop_last() =~= pre);
            assert(entry_paths(pre.push(e)) =~= entry_paths(pre).push(e.0));
        }
        let fresh = seen.insert(files[i].path.clone());
        if fresh {
            let ghost old_r = r@;
            r.push(copy_entry(&files[i]));
            proof {
                assert(entry_views(r@) =~= entry_views(old_r).push(e));
                let op = entry_paths(entry_views(old_r));
                assert(entry_paths(entry_views(r@)) =~= op.push(e.0));
                assert(!op.contains(e.0));
                assert forall|p: Seq<char>| #[trigger] op.push(e.0).contains(p) <==> op.contains(p) || p == e.0 by {
                    if op.push(e.0).contains(p) {
                        let k = choose|k: int| 0 <= k < op.len() + 1 && op.push(e.0)[k] == p;
                        if k < op.len() {
                            assert(op[k] == p);
                        }
                    }
                    if op.contains(p) {
                        let k = choose|k: int| 0 <= k < op.len() && op[k] == p;
                        assert(op.push(e.0)[k] == p);
                    }
                    if p == e.0 {
                        assert(op.push(e.0)[op.len() as int] == p);
                    }
                }
                assert forall|p: Seq<char>| #[trigger] entry_paths(pre).push(e.0).contains(p) <==> entry_paths(pre).contains(p) || p == e.0 by {
                    let ep = entry_paths(pre);
                    if ep.push(e.0).contains(p) {
                        let k = choose|k: int| 0 <= k < ep.len() + 1 && ep.push(e.0)[k] == p;
                        if k < ep.len() {
                            assert(ep[k] == p);
                        }
                    }
                    if ep.contains(p) {
                        let k = choose|k: int| 0 <= k < ep.len() && ep[k] == p;
                        assert(ep.push(e.0)[k] == p);
                    }
                    if p == e.0 {
                        assert(ep.push(e.0)[ep.len() as int] == p);
                    }
                }
                let np = op.push(e.0);
                assert forall|a: int, b: int| 0 <= a < np.len() && 0 <= b < np.len() && a != b implies np[a] != np[b] by {
                    if a == op.len() {
                        assert(op.contains(np[b]));
                    } else if b == op.len() {
                        assert(op.contains(np[a]));
                    }
                }
            }
        } else {
            proof {
                let ep = entry_paths(pre);
                assert forall|p: Seq<char>| #[trigger] ep.push(e.0).contains(p) <==> ep.contains(p) by {
                    if ep.push(e.0).contains(p) {
                        let k = choose|k: int| 0 <= k < ep.len() + 1 && ep.push(e.0)[k] == p;
                        if k < ep.len() {
                            assert(ep[k] == p);
                        }
                    }
                    if ep.contains(p) {
                        let k = choose|k: int| 0 <= k < ep.len() && ep[k] == p;
                        assert(ep.push(e.0)[k] == p);
                    }
                }
            }
        }
        i = i + 1;
    }
    assert(ev.take(files.len() as int) =~= ev);
    r
}


/// Each group wastes no more than the ones before it.
pub open spec fn sorted_by_waste(gs: Seq<DuplicateGroup>) -> bool {
    forall|i: int, j: int| 0 <= i < j < gs.len() ==> gs[i].wasted_bytes >= gs[j].wasted_bytes
}

proof fn lemma_totals_insert(gs: Seq<DuplicateGroup>, p: int, g: DuplicateGroup)
    requires
        0 <= p <= gs.len(),
    ensures
        total_wasted(gs.insert(p, g)) == total_wasted(gs) + g.wasted_bytes,
        total_paths(gs.insert(p, g)) == total_paths(gs) + g.paths@.len(),
        total_duplicates(gs.insert(p, g)) == total_duplicates(gs) + (if g.paths@.len() > 0 {
            (g.paths@.len() - 1) as nat
        } else {
            0
        }),
    decreases gs.len(),
{
    if p == gs.len() {
        assert(gs.insert(p, g).drop_last() =~= gs);
    } else {
        lemma_totals_insert(gs.drop_last(), p, g);
        assert(gs.insert(p, g).drop_last() =~= gs.drop_last().insert(p, g));
        assert(gs.insert(p, g).last() == gs.last());
    }
}

proof fn lemma_totals_take(gs: Seq<DuplicateGroup>, k: int)
    requires
        0 <= k <= gs.len(),
    ensures
        total_wasted(gs.take(k)) <= total_wasted(gs),
        total_paths(gs.take(k)) <= total_paths(gs),
        total_duplicates(gs.take(k)) <= total_duplicates(gs),
    decreases gs.len(),
{
    if k < gs.len() {
        assert(gs.drop_last().take(k) =~= gs.take(k));
        lemma_totals_take(gs.drop_last(), k);
    } else {
        assert(gs.take(k) =~= gs);
    }
}

proof fn lemma_duplicates_le_paths(gs: Seq<DuplicateGroup>)
    ensures
        total_duplicates(gs) <= total_paths(gs),
    decreases gs.len(),
{
    if gs.len() > 0 {
        lemma_duplicates_le_paths(gs.drop_last());
    }
}

/// The groups ordered by wasted bytes, largest first.
pub fn sort_by_waste(groups: Vec<DuplicateGroup>) -> (r: Vec<DuplicateGroup>)
    ensures
        r@.to_multiset() == groups@.to_multiset(),
        sorted_by_waste(r@),
        total_wasted(r@) == total_wasted(groups@),
        total_paths(r@) == total_paths(groups@),
        total_duplicates(r@) == total_duplicates(groups@),
{
    broadcast use vstd::seq_lib::group_to_multiset_ensures;

    let ghost orig = groups@;
    let mut groups = groups;
    let mut r: Vec<DuplicateGroup> = Vec::new();
    assert(orig.skip(orig.len() as int) =~= Seq::<DuplicateGroup>::empty());
    while groups.len() > 0
        invariant
            groups@ == orig.take(groups@.len() as int),
            groups@.len() <= orig.len(),
            r@.to_multiset() == orig.skip(groups@.len() as int).to_multiset(),
            sorted_by_waste(r@),
            total_wasted(r@) == total_wasted(orig.skip(groups@.len() as int)),
            total_paths(r@) == total_paths(orig.skip(groups@.len() as int)),
            total_duplicates(r@) == total_duplicates(orig.skip(groups@.len() as int)),
        decreases groups@.len(),
    {
        let ghost k = groups@.len() as int;
        let x = groups.pop().unwrap();
        proof {
            assert(groups@ =~= orig.take(k - 1));
            assert(x == orig[k - 1]);
            assert(orig.skip(k - 1) =~= orig.skip(k).insert(0, x));
            vstd::seq_lib::to_multiset_insert(orig.skip(k), 0, x);
            lemma_totals_insert(orig.skip(k), 0, x);
        }
        let mut p: usize = 0;
        while p < r.len() && r[p].wasted_bytes > x.wasted_bytes
            invariant
                p <= r@.len(),
                forall|q: int| 0 <= q < p ==> (#[trigger] r@[q]).wasted_bytes > x.wasted_bytes,
            decreases r@.len() - p,
        {
            p = p + 1;
        }
        let ghost old_r = r@;
        proof {
            vstd::seq_lib::to_multiset_insert(old_r, p as int, x);
            lemma_totals_insert(old_r, p as int, x);
        }
        r.insert(p, x);
        assert forall|a: int, b: int| 0 <= a < b < r@.len() implies r@[a].wasted_bytes
            >= r@[b].wasted_bytes by {
            if a < p && b == p {
            } else if a == p && b > p {
                assert(old_r[p as int].wasted_bytes >= old_r[b - 1].wasted_bytes || b - 1 == p);
            } else if a < p && b > p {
            } else if b < p {
            } else {
            }
        }
    }
    assert(orig.skip(0) =~= orig);
    r
}

/// Summary statistics of a duplicate scan.
pub struct DuplicateSummary {
    pub files_scanned: usize,
    pub dirs_scanned: usize,
    pub groups_found: usize,
    /// Duplicate files across all groups, not counting one original per group.
    pub duplicate_files: usize,
    pub wasted_bytes: u64,
}

/// Each group holds at least one path.
pub open spec fn all_nonempty(gs: Seq<DuplicateGroup>) -> bool {
    forall|j: int| 0 <= j < gs.len() ==> (#[trigger] gs[j]).paths@.len() >= 1
}

/// The summary of the groups reported by a scan.
pub fn summarize(groups: &Vec<DuplicateGroup>, files_scanned: usize, dirs_scanned: usize) -> (s:
    DuplicateSummary)
    requires
        totals_fit(groups@),
        all_nonempty(groups@),
    ensures
        s.files_scanned == files_scanned,
        s.dirs_scanned == dirs_scanned,
        s.groups_found == groups@.len(),
        s.duplicate_files == total_duplicates(groups@),
        s.wasted_bytes == total_wasted(groups@),
{
    let mut dup: usize = 0;
    let mut wasted: u64 = 0;
    let mut i: usize = 0;
    while i < groups.len()
        invariant
            i <= groups.len(),
            totals_fit(groups@),
            all_nonempty(groups@),
            dup == total_duplicates(groups@.take(i as int)),
            wasted == total_wasted(groups@.take(i as int)),
        decreases groups.len() - i,
    {
        proof {
            assert(groups@.take(i + 1).drop_last() =~= groups@.take(i as int));
            lemma_totals_take(groups@, i + 1);
            lemma_duplicates_le_paths(groups@);
        }
        let n = groups[i].paths.len();
        assert(n >= 1);
        dup = dup + (n - 1);
        wasted = wasted + groups[i].wasted_bytes;
        i = i + 1;
    }
    assert(groups@.take(groups.len() as int) =~= groups@);
    DuplicateSummary {
        files_scanned,
        dirs_scanned,
        groups_found: groups.len(),
        duplicate_files: dup,
        wasted_bytes: wasted,
    }
}

/// The end of a scan: the groups ordered by wasted bytes (largest first),
/// at most `max_results` of them when that is not 0, and their summary.
pub fn finish_scan(
    groups: Vec<DuplicateGroup>,
    max_results: usize,
    files_scanned: usize,
    dirs_scanned: usize,
) -> (out: (Vec<DuplicateGroup>, DuplicateSummary))
    requires
        totals_fit(groups@),
        all_nonempty(groups@),
    ensures
        reported(out.0@, groups@, max_results),
        summarizes(out.1, out.0@, files_scanned, dirs_scanned),
{
    broadcast use vstd::seq_lib::group_to_multiset_ensures;

    let mut r = sort_by_waste(groups);
    let ghost ordered = r@;
    proof {
        assert forall|j: int| 0 <= j < ordered.len() implies (#[trigger] ordered[j]).paths@.len()
            >= 1 by {
            assert(ordered.to_multiset().count(ordered[j]) > 0);
            assert(groups@.to_multiset().count(ordered[j]) > 0);
            assert(groups@.contains(ordered[j]));
        }
    }
    if max_results > 0 && r.len() > max_results {
        r.truncate(max_results);
        proof {
            lemma_totals_take(ordered, max_results as int);
        }
    }
    assert(r@ == capped(ordered, max_results));
    let s = summarize(&r, files_scanned, dirs_scanned);
    assert(reported(r@, groups@, max_results));
    (r, s)
}


/// `gs` are the groups of the keys of `fs` that at least two files share, in
/// the order those keys first appear, with hashes labelled by `label`.
pub open spec fn groups_for(
    gs: Seq<DuplicateGroup>,
    fs: Seq<(Seq<char>, u64, Seq<char>)>,
    label: Seq<char>,
) -> bool {
    &&& gs.len() == repeated_keys(fs).len()
    &&& forall|j: int| 0 <= j < gs.len() ==> is_group_of(#[trigger] gs[j], fs, repeated_keys(fs)[j], label)
}

/// `shown` is what a scan reports of the groups `gs`: all of them ordered
/// by wasted bytes (largest first, ties in any order), cut to `max_results`
/// when that is not 0.
pub open spec fn reported(shown: Seq<DuplicateGroup>, gs: Seq<DuplicateGroup>, max_results: usize) -> bool {
    exists|ordered: Seq<DuplicateGroup>|
        {
            &&& ordered.to_multiset() == gs.to_multiset()
            &&& sorted_by_waste(ordered)
            &&& shown == capped(ordered, max_results)
        }
}

/// `s` summarizes the reported groups `shown`.
pub open spec fn summarizes(
    s: DuplicateSummary,
    shown: Seq<DuplicateGroup>,
    files_scanned: usize,
    dirs_scanned: usize,
) -> bool {
    &&& s.files_scanned == files_scanned
    &&& s.dirs_scanned == dirs_scanned
    &&& s.groups_found == shown.len()
    &&& s.duplicate_files == total_duplicates(shown)
    &&& s.wasted_bytes == total_wasted(shown)
}

proof fn lemma_groups_nonempty(gs: Seq<DuplicateGroup>, fs: Seq<(Seq<char>, u64, Seq<char>)>, label: Seq<char>)
    requires
        groups_for(gs, fs, label),
    ensures
        all_nonempty(gs),
{
    assert forall|j: int| 0 <= j < gs.len() implies (#[trigger] gs[j]).paths@.len() >= 1 by {
        assert(is_group_of(gs[j], fs, repeated_keys(fs)[j], label));
    }
}

/// A file keyed by its content digest: the lower-case hex digest of all the
/// bytes `hasher` absorbed (the file's content, fed in chunks).
pub fn keyed_by_content(f: &FileEntry, hasher: ContentHasher) -> (k: KeyedFile)
    ensures
        k.key@ == hex_lower(digest_of(hasher.algorithm(), hasher.absorbed())),
        k.size == f.size,
        k.path@ == f.path@,
{
    KeyedFile { key: hasher.finish(), size: f.size, path: f.path.clone() }
}

/// Every group records its exact wasted bytes.
pub open spec fn exact_wastes(gs: Seq<DuplicateGroup>) -> bool {
    forall|j: int| 0 <= j < gs.len() ==> (#[trigger] gs[j]).wasted_bytes == gs[j].size * (gs[j].paths@.len() - 1)
}

/// Duplicate detection by content: `hashed` holds the candidate files with
/// their hex digests (`content_candidates`, then hashing), `files_scanned`
/// the number of files collected.
pub fn scan_by_content(
    hashed: &Vec<KeyedFile>,
    files_scanned: usize,
    dirs_scanned: usize,
    max_results: usize,
) -> (out: (Vec<DuplicateGroup>, DuplicateSummary))
    requires
        wastes_fit(keyed_views(hashed@), false),
    ensures
        exists|gs: Seq<DuplicateGroup>|
            {
                &&& groups_for(gs, keyed_views(hashed@), Seq::<char>::empty())
                &&& exact_wastes(gs)
                &&& reported(out.0@, gs, max_results)
            },
        summarizes(out.1, out.0@, files_scanned, dirs_scanned),
{
    proof {
        lemma_wastes_fit_products(keyed_views(hashed@));
    }
    let candidates = hashed.len();
    assert(candidates == hashed@.len());
    let groups = group_by_content(hashed);
    proof {
        lemma_groups_nonempty(groups@, keyed_views(hashed@), Seq::<char>::empty());
    }
    let ghost gs = groups@;
    let out = finish_scan(groups, max_results, files_scanned, dirs_scanned);
    assert(groups_for(gs, keyed_views(hashed@), Seq::<char>::empty()));
    assert(exact_wastes(gs));
    out
}

/// Duplicate detection by file name.
pub fn scan_by_name(files: &Vec<FileEntry>, dirs_scanned: usize, max_results: usize) -> (out: (
    Vec<DuplicateGroup>,
    DuplicateSummary,
))
    requires
        wastes_fit(name_keyed(files@), true),
    ensures
        exists|gs: Seq<DuplicateGroup>|
            {
                &&& groups_for(gs, name_keyed(files@), "name:"@)
                &&& reported(out.0@, gs, max_results)
            },
        summarizes(out.1, out.0@, files@.len() as usize, dirs_scanned),
{
    let groups = group_by_name(files);
    proof {
        lemma_groups_nonempty(groups@, name_keyed(files@), "name:"@);
    }
    let ghost gs = groups@;
    let out = finish_scan(groups, max_results, files.len(), dirs_scanned);
    assert(groups_for(gs, name_keyed(files@), "name:"@));
    out
}

/// Duplicate detection by file size.
pub fn scan_by_size(files: &Vec<FileEntry>, dirs_scanned: usize, max_results: usize) -> (out: (
    Vec<DuplicateGroup>,
    DuplicateSummary,
))
    requires
        wastes_fit(size_keyed(files@), false),
    ensures
        exists|gs: Seq<DuplicateGroup>|
            {
                &&& groups_for(gs, size_keyed(files@), "size:"@)
                &&& exact_wastes(gs)
                &&& reported(out.0@, gs, max_results)
            },
        summarizes(out.1, out.0@, files@.len() as usize, dirs_scanned),
{
    proof {
        lemma_wastes_fit_products(size_keyed(files@));
    }
    let groups = group_by_size(files);
    proof {
        lemma_groups_nonempty(groups@, size_keyed(files@), "size:"@);
    }
    let ghost gs = groups@;
    let out = finish_scan(groups, max_results, files.len(), dirs_scanned);
    assert(groups_for(gs, size_keyed(files@), "size:"@));
    assert(exact_wastes(gs));
    out
}

/// Decides `wastes_fit` for keyed files.
fn keyed_wastes_fit_with(fs: &Vec<KeyedFile>, saturate: bool) -> (r: bool)
    ensures
        r == wastes_fit(keyed_views(fs@), saturate),
{
    let buckets = group_by_key(fs);
    let ghost kv = keyed_views(fs@);
    let ghost fo = first_occurrences(keys_of(kv));
    let mut acc: u128 = 0;
    let mut j: usize = 0;
    assert(fo.take(0) =~= Seq::<Seq<char>>::empty());
    assert(repeated_among(kv, fo.take(0)) =~= Seq::<Seq<char>>::empty());
    while j < buckets.len()
        invariant
            j <= buckets@.len() == fo.len(),
            kv == keyed_views(fs@),
            fo == first_occurrences(keys_of(kv)),
            forall|t: int| 0 <= t < buckets@.len() ==> is_bucket_of(#[trigger] buckets@[t], kv, fo[t]),
            acc == waste_sum(kv, repeated_among(kv, fo.take(j as int)), saturate),
            acc <= u64::MAX,
        decreases buckets@.len() - j,
    {
        let ghost k = fo[j as int];
        proof {
            assert(fo.take(j + 1) =~= fo.take(j as int).push(k));
            lemma_repeated_among_push(kv, fo.take(j as int), k);
            assert(is_bucket_of(buckets@[j as int], kv, k));
            assert(views(buckets@[j as int].paths@).len() == buckets@[j as int].paths@.len());
        }
        let l = buckets[j].paths.len();
        if l >= 2 {
            let size = buckets[j].size;
            let m = (l - 1) as u64;
            proof {
                assert((size as int) * (m as int) <= 0xFFFF_FFFF_FFFF_FFFFu64 as int * 0xFFFF_FFFF_FFFF_FFFFu64 as int)
                    by (nonlinear_arith)
                    requires
                        size <= 0xFFFF_FFFF_FFFF_FFFFu64,
                        m <= 0xFFFF_FFFF_FFFF_FFFFu64,
                ;
            }
            let raw: u128 = (size as u128) * (m as u128);
            let t: u128 = if saturate && raw > 0xFFFF_FFFF_FFFF_FFFFu128 {
                0xFFFF_FFFF_FFFF_FFFFu128
            } else {
                raw
            };
            proof {
                assert(key_waste(kv, k) == raw);
                assert(waste_term(kv, k, saturate) == t);
                lemma_waste_sum_push(kv, repeated_among(kv, fo.take(j as int)), k, saturate);
            }
            if t > 0xFFFF_FFFF_FFFF_FFFFu128 - acc {
                proof {
                    let next = repeated_among(kv, fo.take(j + 1));
                    assert(next == repeated_among(kv, fo.take(j as int)).push(k));
                    assert(waste_sum(kv, next, saturate) == acc + t);
                    lemma_waste_sum_prefix(kv, fo, j + 1, saturate);
                    assert(repeated_among(kv, fo) =~= repeated_keys(kv));
                    assert(waste_sum(kv, repeated_keys(kv), saturate) > u64::MAX);
                }
                return false;
            }
            acc = acc + t;
        }
        j = j + 1;
    }
    assert(fo.take(fo.len() as int) =~= fo);
    true
}

/// Decides `wastes_fit` for hashed files, the condition of `scan_by_content`.
pub fn keyed_wastes_fit(files: &Vec<KeyedFile>) -> (r: bool)
    ensures
        r == wastes_fit(keyed_views(files@), false),
{
    keyed_wastes_fit_with(files, false)
}

/// Decides `wastes_fit` for files keyed by name, the condition of `scan_by_name`.
pub fn name_wastes_fit(files: &Vec<FileEntry>) -> (r: bool)
    ensures
        r == wastes_fit(name_keyed(files@), true),
{
    let keyed = name_keyed_files(files);
    keyed_wastes_fit_with(&keyed, true)
}

/// Decides `wastes_fit` for files keyed by size, the condition of `scan_by_size`.
pub fn size_wastes_fit(files: &Vec<FileEntry>) -> (r: bool)
    ensures
        r == wastes_fit(size_keyed(files@), false),
{
    let keyed = size_keyed_files(files);
    keyed_wastes_fit_with(&keyed, false)
}


/// `1024` to the power `e`.
pub open spec fn pow1024(e: nat) -> nat
    decreases e,
{
    if e == 0 {
        1
    } else {
        1024 * pow1024((e - 1) as nat)
    }
}

/// The largest unit exponent, from `e` up to 4 (TiB), whose unit fits in `b`.
pub open spec fn unit_exp_from(b: nat, e: nat) -> nat
    decreases 4 - e,
{
    if e < 4 && pow1024(e + 1) <= b {
        unit_exp_from(b, e + 1)
    } else {
        e
    }
}

/// The unit of a byte count: the largest of B, KiB, MiB, GiB, TiB not above it.
pub open spec fn unit_exp(b: nat) -> nat {
    unit_exp_from(b, 0)
}

/// The name of unit `e`.
pub open spec fn unit_name(e: nat) -> Seq<char> {
    if e == 0 {
        "B"@
    } else if e == 1 {
        "KiB"@
    } else if e == 2 {
        "MiB"@
    } else if e == 3 {
        "GiB"@
    } else {
        "TiB"@
    }
}

/// `num / den` rounded to the nearest integer, ties to even.
pub open spec fn round_half_even(num: nat, den: nat) -> nat
    recommends
        den > 0,
{
    let q = num / den;
    let r = num % den;
    if 2 * r > den {
        q + 1
    } else if 2 * r < den {
        q
    } else if q % 2 == 0 {
        q
    } else {
        q + 1
    }
}

/// A byte count in human-readable IEC form: `0 B`, `512 B`, `1.0 KiB`,
/// `4.2 MiB`; above the byte unit, the value in the largest unit that fits
/// (at most TiB) with one decimal.
pub open spec fn human_size(b: nat) -> Seq<char> {
    let e = unit_exp(b);
    if b == 0 {
        "0 B"@
    } else if e == 0 {
        crate::text::decimal(b) + " B"@
    } else {
        let tenths = round_half_even(b * 10, pow1024(e));
        crate::text::decimal(tenths / 10) + seq!['.', crate::text::digit_char(tenths % 10), ' ']
            + unit_name(e)
    }
}

proof fn lemma_pow1024_bounds(e: nat)
    requires
        e <= 4,
    ensures
        1 <= pow1024(e) <= 1099511627776,
{
    reveal_with_fuel(pow1024, 5);
    if e == 0 {
    } else if e == 1 {
    } else if e == 2 {
    } else if e == 3 {
    } else {
        assert(e == 4);
    }
}

/// Formats a byte count as human-readable IEC text.
pub fn human_bytes(bytes: u64) -> (s: String)
    ensures
        s@ == human_size(bytes as nat),
{
    if bytes == 0 {
        return "0 B".to_owned();
    }
    let mut e: u64 = 0;
    let mut den: u64 = 1;
    proof {
        assert(unit_exp(bytes as nat) == unit_exp_from(bytes as nat, 0));
    }
    while e < 4 && (den as u128) * 1024 <= bytes as u128
        invariant
            e <= 4,
            den == pow1024(e as nat),
            1 <= den <= 1099511627776,
            unit_exp(bytes as nat) == unit_exp_from(bytes as nat, e as nat),
        decreases 4 - e,
    {
        proof {
            lemma_pow1024_bounds((e + 1) as nat);
        }
        den = den * 1024;
        e = e + 1;
    }
    assert(unit_exp(bytes as nat) == e);
    if e == 0 {
        let d = crate::text::u64_decimal(bytes);
        return crate::text::str_concat(d.as_str(), " B");
    }
    let num: u128 = bytes as u128 * 10;
    let q: u128 = num / den as u128;
    let r: u128 = num % den as u128;
    let tenths: u128 = if 2 * r > den as u128 {
        q + 1
    } else if 2 * r < den as u128 {
        q
    } else if q % 2 == 0 {
        q
    } else {
        q + 1
    };
    assert(tenths == round_half_even((bytes * 10) as nat, pow1024(e as nat)));
    assert(tenths <= (bytes as u128) * 10 + 1);
    let whole = crate::text::u64_decimal((tenths / 10) as u64);
    let frac = crate::text::digit_char_exec((tenths % 10) as u64);
    let mut s = whole;
    crate::text::push_char(&mut s, '.');
    crate::text::push_char(&mut s, frac);
    crate::text::push_char(&mut s, ' ');
    let unit = if e == 1 {
        "KiB"
    } else if e == 2 {
        "MiB"
    } else if e == 3 {
        "GiB"
    } else {
        "TiB"
    };
    crate::text::str_concat(s.as_str(), unit)
}


/// Hashing algorithm for content comparison.
#[derive(Clone, Copy, Debug, PartialEq, Eq, Structural)]
pub enum HashAlgorithm {
    Md5,
    Sha256,
}

/// The algorithm a (lower-cased) name selects, or the error that names it.
pub open spec fn algorithm_named(name: Seq<char>) -> Option<HashAlgorithm> {
    if name == "md5"@ {
        Some(HashAlgorithm::Md5)
    } else if name == "sha256"@ {
        Some(HashAlgorithm::Sha256)
    } else {
        None
    }
}

impl HashAlgorithm {
    /// The algorithm's name.
    pub open spec fn name(&self) -> Seq<char> {
        match self {
            HashAlgorithm::Md5 => "md5"@,
            HashAlgorithm::Sha256 => "sha256"@,
        }
    }

    /// The algorithm's name: `md5` or `sha256`.
    pub fn as_str(&self) -> (s: &'static str)
        ensures
            s@ == self.name(),
    {
        match self {
            HashAlgorithm::Md5 => "md5",
            HashAlgorithm::Sha256 => "sha256",
        }
    }

    /// Parses an algorithm name, ignoring case; the error carries the
    /// lower-cased name. The name `as_str` gives parses back to its algorithm.
    pub fn parse(s: &str) -> (r: Result<HashAlgorithm, FsearchError>)
        ensures
            algorithm_named(crate::text::lowercase(s@)) matches Some(a) ==> r == Ok::<
                HashAlgorithm,
                FsearchError,
            >(a),
            algorithm_named(crate::text::lowercase(s@)) is None ==> (r matches Err(
                FsearchError::UnsupportedHashAlgorithm(n),
            ) && n@ == crate::text::lowercase(s@)),
            forall|a: HashAlgorithm| #[trigger] a.name() == s@ ==> r == Ok::<HashAlgorithm, FsearchError>(a),
    {
        proof {
            reveal_strlit("md5");
            reveal_strlit("sha256");
            assert("md5"@ =~= seq!['m', 'd', '5']);
            assert("sha256"@ =~= seq!['s', 'h', 'a', '2', '5', '6']);
            assert(crate::text::lower_ascii_text("md5"@));
            assert(crate::text::lower_ascii_text("sha256"@));
        }
        let lower = crate::text::to_lowercase(s);
        if crate::pattern::str_eq(lower.as_str(), "md5") {
            Ok(HashAlgorithm::Md5)
        } else if crate::pattern::str_eq(lower.as_str(), "sha256") {
            Ok(HashAlgorithm::Sha256)
        } else {
            Err(FsearchError::UnsupportedHashAlgorithm(lower))
        }
    }
}

impl Default for HashAlgorithm {
    /// SHA-256.
    fn default() -> (a: Self)
        ensures
            a == HashAlgorithm::Sha256,
    {
        HashAlgorithm::Sha256
    }
}

impl std::str::FromStr for HashAlgorithm {
    type Err = FsearchError;

    fn from_str(s: &str) -> (r: Result<Self, Self::Err>)
        ensures
            algorithm_named(crate::text::lowercase(s@)) matches Some(a) ==> r == Ok::<
                HashAlgorithm,
                FsearchError,
            >(a),
            algorithm_named(crate::text::lowercase(s@)) is None ==> (r matches Err(
                FsearchError::UnsupportedHashAlgorithm(n),
            ) && n@ == crate::text::lowercase(s@)),
            forall|a: HashAlgorithm| #[trigger] a.name() == s@ ==> r == Ok::<HashAlgorithm, FsearchError>(a),
    {
        HashAlgorithm::parse(s)
    }
}

/// Controls how duplicates are identified.
#[derive(Clone, Copy, Debug, PartialEq, Eq, Structural)]
pub enum DuplicateMode {
    /// Hash-based: files with identical content (default).
    Content,
    /// Name-based: files with the same file name (different directories).
    Name,
    /// Size-based: files that share the same byte count (fast, imprecise).
    Size,
}

impl Default for DuplicateMode {
    /// Detection by content.
    fn default() -> (m: Self)
        ensures
            m == DuplicateMode::Content,
    {
        DuplicateMode::Content
    }
}

impl DuplicateGroup {
    /// Human-readable wasted space, e.g. `4.2 MiB`.
    pub fn wasted_human(&self) -> (s: String)
        ensures
            s@ == human_size(self.wasted_bytes as nat),
    {
        human_bytes(self.wasted_bytes)
    }

    /// Human-readable file size.
    pub fn size_human(&self) -> (s: String)
        ensures
            s@ == human_size(self.size as nat),
    {
        human_bytes(self.size)
    }
}

impl DuplicateSummary {
    /// Human-readable total wasted space.
    pub fn wasted_human(&self) -> (s: String)
        ensures
            s@ == human_size(self.wasted_bytes as nat),
    {
        human_bytes(self.wasted_bytes)
    }
}

/// All parameters of a duplicate-detection run.
pub struct DuplicateOptions {
    /// One or more root directories; files of all roots are pooled before
    /// grouping, so duplicates in different trees are found.
    pub base_dirs: Vec<String>,
    /// Maximum recursion depth per directory (0 = only that directory).
    pub max_depth: u32,
    /// Detection mode.
    pub mode: DuplicateMode,
    /// Hashing algorithm (content mode only).
    pub algorithm: HashAlgorithm,
    /// Read buffer size for hashing (bytes).
    pub buffer_size: usize,
    /// Skip files smaller than this (bytes); 0 = include all.
    pub min_size: u64,
    /// Skip files larger than this (bytes); 0 = no limit.
    pub max_size: u64,
    /// Skip binary files.
    pub skip_binary: bool,
    /// Binary-check probe length.
    pub binary_check_bytes: usize,
    /// Only include files matching these glob patterns (empty = all).
    pub include_patterns: Vec<String>,
    /// Directory names to skip entirely.
    pub exclude_dirs: Vec<String>,
    /// Cap results (0 = unlimited).
    pub max_results: usize,
}

impl DuplicateOptions {
    /// Options for `base_dirs`, the rest taken from `cfg`; fails when the
    /// configured hash algorithm is not one of `md5` and `sha256`.
    pub fn from_config(cfg: &Config, base_dirs: Vec<String>) -> (r: Result<DuplicateOptions, FsearchError>)
        ensures
            algorithm_named(crate::text::lowercase(cfg.hash_algorithm@)) is None ==> (r matches Err(
                FsearchError::UnsupportedHashAlgorithm(n),
            ) && n@ == crate::text::lowercase(cfg.hash_algorithm@)),
            algorithm_named(crate::text::lowercase(cfg.hash_algorithm@)) matches Some(a) ==> (r matches Ok(o) && {
                &&& o.base_dirs == base_dirs
                &&& o.max_depth == cfg.default_depth
                &&& o.mode == DuplicateMode::Content
                &&& o.algorithm == a
                &&& o.buffer_size == cfg.hash_buffer_size
                &&& o.min_size == cfg.dup_min_size
                &&& o.max_size == cfg.dup_max_size
                &&& !o.skip_binary
                &&& o.binary_check_bytes == cfg.binary_check_bytes
                &&& views(o.include_patterns@) == crate::text::csv_items(cfg.default_include@)
                &&& views(o.exclude_dirs@) == crate::text::csv_items(cfg.exclude_dirs@)
                &&& o.max_results == cfg.max_results
            }),
    {
        let algorithm = match HashAlgorithm::parse(cfg.hash_algorithm.as_str()) {
            Ok(a) => a,
            Err(e) => return Err(e),
        };
        Ok(
            DuplicateOptions {
                base_dirs,
                max_depth: cfg.default_depth,
                mode: DuplicateMode::Content,
                algorithm,
                buffer_size: cfg.hash_buffer_size,
                min_size: cfg.dup_min_size,
                max_size: cfg.dup_max_size,
                skip_binary: false,
                binary_check_bytes: cfg.binary_check_bytes,
                include_patterns: crate::config::split_csv(cfg.default_include.as_str()),
                exclude_dirs: cfg.excluded_dirs(),
                max_results: cfg.max_results,
            },
        )
    }

    /// Fluent builder: starts from one or more directories, depth 10,
    /// content mode with SHA-256, files of at least one byte, the usual
    /// directories skipped.
    pub fn builder<D: IntoDirs>(base_dirs: D) -> (b: DuplicateOptionsBuilder)
        ensures
            views(b.0.base_dirs@) == base_dirs.dirs_view(),
            b.0.max_depth == 10,
            b.0.mode == DuplicateMode::Content,
            b.0.algorithm == HashAlgorithm::Sha256,
            b.0.buffer_size == 65_536,
            b.0.min_size == 1,
            b.0.max_size == 0,
            !b.0.skip_binary,
            b.0.binary_check_bytes == 1024,
            b.0.include_patterns@.len() == 0,
            views(b.0.exclude_dirs@) == default_excludes(),
            b.0.max_results == 0,
    {
        DuplicateOptionsBuilder(
            DuplicateOptions {
                base_dirs: base_dirs.into_dirs(),
                max_depth: 10,
                mode: DuplicateMode::Content,
                algorithm: HashAlgorithm::Sha256,
                buffer_size: 65_536,
                min_size: 1,
                max_size: 0,
                skip_binary: false,
                binary_check_bytes: 1024,
                include_patterns: Vec::new(),
                exclude_dirs: default_exclude_list(),
                max_results: 0,
            },
        )
    }
}

/// What can name the root directories of a duplicate scan: one directory
/// or a list of them.
pub trait IntoDirs: Sized {
    /// The directories named.
    spec fn dirs_view(self) -> Seq<Seq<char>>;

    /// The directories named, as a list.
    fn into_dirs(self) -> (r: Vec<String>)
        ensures
            views(r@) == self.dirs_view(),
    ;
}

impl IntoDirs for String {
    open spec fn dirs_view(self) -> Seq<Seq<char>> {
        seq![self@]
    }

    fn into_dirs(self) -> (r: Vec<String>) {
        let ghost v = self@;
        let mut r: Vec<String> = Vec::new();
        r.push(self);
        assert(views(r@) =~= seq![v]);
        r
    }
}

impl<'a> IntoDirs for &'a str {
    open spec fn dirs_view(self) -> Seq<Seq<char>> {
        seq![self@]
    }

    fn into_dirs(self) -> (r: Vec<String>) {
        let mut r: Vec<String> = Vec::new();
        r.push(self.to_owned());
        assert(views(r@) =~= seq![self@]);
        r
    }
}

impl IntoDirs for Vec<String> {
    open spec fn dirs_view(self) -> Seq<Seq<char>> {
        views(self@)
    }

    fn into_dirs(self) -> (r: Vec<String>) {
        self
    }
}

impl<'a> IntoDirs for Vec<&'a str> {
    open spec fn dirs_view(self) -> Seq<Seq<char>> {
        self@.map_values(|s: &'a str| s@)
    }

    fn into_dirs(self) -> (r: Vec<String>) {
        let mut r: Vec<String> = Vec::new();
        let mut i: usize = 0;
        while i < self.len()
            invariant
                i <= self.len(),
                views(r@) == self@.map_values(|s: &'a str| s@).take(i as int),
            decreases self.len() - i,
        {
            let ghost old_r = r@;
            r.push(self[i].to_owned());
            assert(views(r@) =~= views(old_r).push(self@[i as int]@));
            assert(self@.map_values(|s: &'a str| s@).take(i + 1) =~= self@.map_values(
                |s: &'a str| s@,
            ).take(i as int).push(self@[i as int]@));
            i = i + 1;
        }
        assert(self@.map_values(|s: &'a str| s@).take(self.len() as int) =~= self@.map_values(
            |s: &'a str| s@,
        ));
        r
    }
}

/// Fluent builder for `DuplicateOptions`.
pub struct DuplicateOptionsBuilder(pub DuplicateOptions);

impl DuplicateOptionsBuilder {
    /// Adds another root directory to the scan.
    pub fn add_dir(self, d: String) -> (b: Self)
        ensures
            b.0.base_dirs@ == self.0.base_dirs@.push(d),
            b.0.max_depth == self.0.max_depth,
            b.0.mode == self.0.mode,
            b.0.algorithm == self.0.algorithm,
            b.0.buffer_size == self.0.buffer_size,
            b.0.min_size == self.0.min_size,
            b.0.max_size == self.0.max_size,
            b.0.skip_binary == self.0.skip_binary,
            b.0.binary_check_bytes == self.0.binary_check_bytes,
            b.0.include_patterns == self.0.include_patterns,
            b.0.exclude_dirs == self.0.exclude_dirs,
            b.0.max_results == self.0.max_results,
    {
        let mut o = self.0;
        o.base_dirs.push(d);
        DuplicateOptionsBuilder(o)
    }

    /// Sets the maximum depth.
    pub fn max_depth(self, d: u32) -> (b: Self)
        ensures
            b.0 == (DuplicateOptions { max_depth: d, ..self.0 }),
    {
        DuplicateOptionsBuilder(DuplicateOptions { max_depth: d, ..self.0 })
    }

    /// Sets the detection mode.
    pub fn mode(self, m: DuplicateMode) -> (b: Self)
        ensures
            b.0 == (DuplicateOptions { mode: m, ..self.0 }),
    {
        DuplicateOptionsBuilder(DuplicateOptions { mode: m, ..self.0 })
    }

    /// Sets the hashing algorithm.
    pub fn algorithm(self, a: HashAlgorithm) -> (b: Self)
        ensures
            b.0 == (DuplicateOptions { algorithm: a, ..self.0 }),
    {
        DuplicateOptionsBuilder(DuplicateOptions { algorithm: a, ..self.0 })
    }

    /// Sets the read buffer size.
    pub fn buffer_size(self, n: usize) -> (b: Self)
        ensures
            b.0 == (DuplicateOptions { buffer_size: n, ..self.0 }),
    {
        DuplicateOptionsBuilder(DuplicateOptions { buffer_size: n, ..self.0 })
    }

    /// Sets the minimum file size.
    pub fn min_size(self, n: u64) -> (b: Self)
        ensures
            b.0 == (DuplicateOptions { min_size: n, ..self.0 }),
    {
        DuplicateOptionsBuilder(DuplicateOptions { min_size: n, ..self.0 })
    }

    /// Sets the maximum file size (0 = no limit).
    pub fn max_size(self, n: u64) -> (b: Self)
        ensures
            b.0 == (DuplicateOptions { max_size: n, ..self.0 }),
    {
        DuplicateOptionsBuilder(DuplicateOptions { max_size: n, ..self.0 })
    }

    /// Sets whether binary files are skipped.
    pub fn skip_binary(self, v: bool) -> (b: Self)
        ensures
            b.0 == (DuplicateOptions { skip_binary: v, ..self.0 }),
    {
        DuplicateOptionsBuilder(DuplicateOptions { skip_binary: v, ..self.0 })
    }

    /// Sets the include patterns.
    pub fn include_patterns(self, p: Vec<String>) -> (b: Self)
        ensures
            b.0 == (DuplicateOptions { include_patterns: p, ..self.0 }),
    {
        DuplicateOptionsBuilder(DuplicateOptions { include_patterns: p, ..self.0 })
    }

    /// Sets the skipped directory names.
    pub fn exclude_dirs(self, d: Vec<String>) -> (b: Self)
        ensures
            b.0 == (DuplicateOptions { exclude_dirs: d, ..self.0 }),
    {
        DuplicateOptionsBuilder(DuplicateOptions { exclude_dirs: d, ..self.0 })
    }

    /// Sets the group limit (0 = unlimited).
    pub fn max_results(self, n: usize) -> (b: Self)
        ensures
            b.0 == (DuplicateOptions { max_results: n, ..self.0 }),
    {
        DuplicateOptionsBuilder(DuplicateOptions { max_results: n, ..self.0 })
    }

    /// The options built.
    pub fn build(self) -> (o: DuplicateOptions)
        ensures
            o == self.0,
    {
        self.0
    }
}

/// A file enters a duplicate scan: its name passes the include patterns
/// (matched as given, case counts) and its size the size limits (a limit of
/// 0 does not apply).
pub open spec fn admits(o: DuplicateOptions, name: Seq<char>, size: u64) -> bool {
    &&& (o.include_patterns@.len() == 0 || any_matches(views(o.include_patterns@), name))
    &&& (o.min_size == 0 || size >= o.min_size)
    &&& (o.max_size == 0 || size <= o.max_size)
}

/// Decides `admits` for a file met during collection.
pub fn admits_file(opts: &DuplicateOptions, name: &str, size: u64) -> (r: bool)
    ensures
        r == admits(*opts, name@, size),
{
    let included = opts.include_patterns.len() == 0 || any_glob_matches(&opts.include_patterns, name);
    if !included {
        return false;
    }
    if opts.min_size > 0 && size < opts.min_size {
        return false;
    }
    if opts.max_size > 0 && size > opts.max_size {
        return false;
    }
    true
}

/// Checks the roots before a scan starts: at least one, each an existing
/// directory.
pub fn validate_roots(roots: &Vec<RootStatus>) -> (r: Result<(), FsearchError>)
    ensures
        roots@.len() == 0 ==> (r matches Err(FsearchError::DirectoryNotFound(p)) && p@
            == "(no directories specified)"@),
        roots@.len() > 0 ==> r == roots_outcome(roots@),
{
    if roots.len() == 0 {
        return Err(FsearchError::DirectoryNotFound("(no directories specified)".to_owned()));
    }
    validate(roots)
}


/// The paths of a list of keyed files.
pub open spec fn keyed_paths(fs: Seq<(Seq<char>, u64, Seq<char>)>) -> Seq<Seq<char>> {
    fs.map_values(|f: (Seq<char>, u64, Seq<char>)| f.2)
}

proof fn lemma_paths_with_key_source(fs: Seq<(Seq<char>, u64, Seq<char>)>, k: Seq<char>, p: Seq<char>)
    requires
        paths_with_key(fs, k).contains(p),
    ensures
        exists|i: int| 0 <= i < fs.len() && fs[i].0 == k && fs[i].2 == p,
    decreases fs.len(),
{
    let d = fs.drop_last();
    let rest = paths_with_key(d, k);
    if fs.last().0 == k && fs.last().2 == p {
        assert(fs[fs.len() - 1].0 == k && fs[fs.len() - 1].2 == p);
    } else {
        if fs.last().0 == k {
            let w = choose|w: int| 0 <= w < rest.len() + 1 && rest.push(fs.last().2)[w] == p;
            assert(rest[w] == p);
        }
        assert(rest.contains(p));
        lemma_paths_with_key_source(d, k, p);
        let i = choose|i: int| 0 <= i < d.len() && d[i].0 == k && d[i].2 == p;
        assert(fs[i] == d[i]);
    }
}

proof fn lemma_paths_with_key_unique(fs: Seq<(Seq<char>, u64, Seq<char>)>, k: Seq<char>)
    requires
        keyed_paths(fs).no_duplicates(),
    ensures
        paths_with_key(fs, k).no_duplicates(),
    decreases fs.len(),
{
    if fs.len() > 0 {
        let d = fs.drop_last();
        assert(keyed_paths(d).no_duplicates()) by {
            assert forall|a: int, b: int| 0 <= a < d.len() && 0 <= b < d.len() && a != b implies keyed_paths(d)[a]
                != keyed_paths(d)[b] by {
                assert(keyed_paths(fs)[a] == keyed_paths(d)[a]);
                assert(keyed_paths(fs)[b] == keyed_paths(d)[b]);
            }
        }
        lemma_paths_with_key_unique(d, k);
        let rest = paths_with_key(d, k);
        if fs.last().0 == k {
            let x = fs.last().2;
            if rest.contains(x) {
                lemma_paths_with_key_source(d, k, x);
                let i = choose|i: int| 0 <= i < d.len() && d[i].0 == k && d[i].2 == x;
                assert(keyed_paths(fs)[i] == keyed_paths(fs)[fs.len() - 1]);
            }
            let np = rest.push(x);
            assert forall|a: int, b: int| 0 <= a < np.len() && 0 <= b < np.len() && a != b implies np[a]
                != np[b] by {
                if a == rest.len() {
                    assert(rest.contains(np[b]));
                } else if b == rest.len() {
                    assert(rest.contains(np[a]));
                }
            }
        }
    }
}

proof fn lemma_repeated_among_unique(fs: Seq<(Seq<char>, u64, Seq<char>)>, ks: Seq<Seq<char>>)
    requires
        ks.no_duplicates(),
    ensures
        repeated_among(fs, ks).no_duplicates(),
        forall|k: Seq<char>| #[trigger] repeated_among(fs, ks).contains(k) <==> ks.contains(k)
            && paths_with_key(fs, k).len() >= 2,
    decreases ks.len(),
{
    if ks.len() > 0 {
        let d = ks.drop_last();
        let k = ks.last();
        assert(ks =~= d.push(k));
        assert(d.no_duplicates()) by {
            assert forall|a: int, b: int| 0 <= a < d.len() && 0 <= b < d.len() && a != b implies d[a]
                != d[b] by {
                assert(ks[a] == d[a] && ks[b] == d[b]);
            }
        }
        lemma_repeated_among_unique(fs, d);
        lemma_repeated_among_push(fs, d, k);
        let r = repeated_among(fs, d);
        assert(!d.contains(k)) by {
            if d.contains(k) {
                let w = choose|w: int| 0 <= w < d.len() && d[w] == k;
                assert(ks[w] == ks[ks.len() - 1]);
            }
        }
        assert forall|x: Seq<char>| ks.contains(x) <==> d.contains(x) || x == k by {
            if ks.contains(x) {
                let w = choose|w: int| 0 <= w < ks.len() && ks[w] == x;
                if w < d.len() {
                    assert(d[w] == x);
                }
            }
            if d.contains(x) {
                let w = choose|w: int| 0 <= w < d.len() && d[w] == x;
                assert(ks[w] == x);
            }
            if x == k {
                assert(ks[ks.len() - 1] == x);
            }
        }
        if paths_with_key(fs, k).len() >= 2 {
            let np = r.push(k);
            assert forall|x: Seq<char>| np.contains(x) <==> r.contains(x) || x == k by {
                if np.contains(x) {
                    let w = choose|w: int| 0 <= w < np.len() && np[w] == x;
                    if w < r.len() {
                        assert(r[w] == x);
                    }
                }
                if r.contains(x) {
                    let w = choose|w: int| 0 <= w < r.len() && r[w] == x;
                    assert(np[w] == x);
                }
                if x == k {
                    assert(np[r.len() as int] == x);
                }
            }
            assert forall|a: int, b: int| 0 <= a < np.len() && 0 <= b < np.len() && a != b implies np[a]
                != np[b] by {
                if a == r.len() {
                    assert(r.contains(np[b]));
                } else if b == r.len() {
                    assert(r.contains(np[a]));
                }
            }
        }
    }
}

proof fn lemma_group_member(g: DuplicateGroup, fs: Seq<(Seq<char>, u64, Seq<char>)>, k: Seq<char>, label: Seq<char>, p: Seq<char>)
    requires
        is_group_of(g, fs, k, label),
        views(g.paths@).contains(p),
    ensures
        paths_with_key(fs, k).contains(p),
{
    broadcast use vstd::seq_lib::group_to_multiset_ensures;

    assert(views(g.paths@).to_multiset().count(p) > 0);
    assert(paths_with_key(fs, k).to_multiset().count(p) > 0);
}

/// No file is listed twice: when the scanned files have distinct paths (as
/// `dedup_by_path` makes them), no group holds a path twice and no two
/// groups share a path.
pub proof fn law_groups_disjoint(
    gs: Seq<DuplicateGroup>,
    fs: Seq<(Seq<char>, u64, Seq<char>)>,
    label: Seq<char>,
)
    requires
        groups_for(gs, fs, label),
        keyed_paths(fs).no_duplicates(),
    ensures
        forall|j: int| 0 <= j < gs.len() ==> views((#[trigger] gs[j]).paths@).no_duplicates(),
        forall|j: int, a: int, b: int|
            0 <= j < gs.len() && 0 <= a < b < gs[j].paths@.len() ==> path_le(
                #[trigger] views(gs[j].paths@)[a],
                #[trigger] views(gs[j].paths@)[b],
            ) && views(gs[j].paths@)[a] != views(gs[j].paths@)[b],
        forall|j1: int, j2: int, p: Seq<char>|
            #![trigger views(gs[j1].paths@).contains(p), views(gs[j2].paths@).contains(p)]
            0 <= j1 < gs.len() && 0 <= j2 < gs.len() && j1 != j2 ==> !(views(gs[j1].paths@).contains(p)
                && views(gs[j2].paths@).contains(p)),
{
    broadcast use vstd::seq_lib::group_to_multiset_ensures;

    let rk = repeated_keys(fs);
    lemma_first_occurrences(keys_of(fs));
    lemma_repeated_among_unique(fs, first_occurrences(keys_of(fs)));
    assert(rk == repeated_among(fs, first_occurrences(keys_of(fs))));
    assert forall|j: int| 0 <= j < gs.len() implies views((#[trigger] gs[j]).paths@).no_duplicates() by {
        let g = gs[j];
        assert(is_group_of(g, fs, rk[j], label));
        lemma_paths_with_key_unique(fs, rk[j]);
        paths_with_key(fs, rk[j]).lemma_multiset_has_no_duplicates();
        assert forall|x: Seq<char>| views(g.paths@).to_multiset().contains(x) implies views(
            g.paths@,
        ).to_multiset().count(x) == 1 by {
            assert(paths_with_key(fs, rk[j]).to_multiset().contains(x));
        }
        views(g.paths@).lemma_multiset_has_no_duplicates_conv();
    }
    assert forall|j: int, a: int, b: int|
        0 <= j < gs.len() && 0 <= a < b < gs[j].paths@.len() implies path_le(
            #[trigger] views(gs[j].paths@)[a],
            #[trigger] views(gs[j].paths@)[b],
        ) && views(gs[j].paths@)[a] != views(gs[j].paths@)[b] by {
        assert(is_group_of(gs[j], fs, rk[j], label));
        assert(views(gs[j].paths@).no_duplicates());
    }
    assert forall|j1: int, j2: int, p: Seq<char>|
        #![trigger views(gs[j1].paths@).contains(p), views(gs[j2].paths@).contains(p)]
        0 <= j1 < gs.len() && 0 <= j2 < gs.len() && j1 != j2 implies !(views(gs[j1].paths@).contains(p)
            && views(gs[j2].paths@).contains(p)) by {
        if views(gs[j1].paths@).contains(p) && views(gs[j2].paths@).contains(p) {
            assert(is_group_of(gs[j1], fs, rk[j1], label));
            assert(is_group_of(gs[j2], fs, rk[j2], label));
            lemma_group_member(gs[j1], fs, rk[j1], label, p);
            lemma_group_member(gs[j2], fs, rk[j2], label, p);
            lemma_paths_with_key_source(fs, rk[j1], p);
            lemma_paths_with_key_source(fs, rk[j2], p);
            let i1 = choose|i: int| 0 <= i < fs.len() && fs[i].0 == rk[j1] && fs[i].2 == p;
            let i2 = choose|i: int| 0 <= i < fs.len() && fs[i].0 == rk[j2] && fs[i].2 == p;
            assert(keyed_paths(fs)[i1] == keyed_paths(fs)[i2]);
            assert(i1 == i2);
        }
    }
}


proof fn lemma_paths_with_key_has(fs: Seq<(Seq<char>, u64, Seq<char>)>, i: int)
    requires
        0 <= i < fs.len(),
    ensures
        paths_with_key(fs, fs[i].0).contains(fs[i].2),
    decreases fs.len(),
{
    let d = fs.drop_last();
    let k = fs[i].0;
    if i == fs.len() - 1 {
        let rest = paths_with_key(d, k);
        assert(rest.push(fs[i].2)[rest.len() as int] == fs[i].2);
    } else {
        assert(d[i] == fs[i]);
        lemma_paths_with_key_has(d, i);
        let rest = paths_with_key(d, k);
        if fs.last().0 == k {
            let w = choose|w: int| 0 <= w < rest.len() && rest[w] == fs[i].2;
            assert(rest.push(fs.last().2)[w] == fs[i].2);
        }
    }
}

/// Groups are exact: a group holds the paths of precisely the files with its
/// key, and every file whose key another file shares is in the group of
/// that key.
pub proof fn law_groups_exact(gs: Seq<DuplicateGroup>, fs: Seq<(Seq<char>, u64, Seq<char>)>, label: Seq<char>)
    requires
        groups_for(gs, fs, label),
    ensures
        forall|j: int, p: Seq<char>|
            #![trigger views(gs[j].paths@).contains(p)]
            0 <= j < gs.len() ==> (views(gs[j].paths@).contains(p) <==> exists|i: int|
                0 <= i < fs.len() && fs[i].0 == repeated_keys(fs)[j] && fs[i].2 == p),
        forall|i: int|
            0 <= i < fs.len() && #[trigger] paths_with_key(fs, fs[i].0).len() >= 2 ==> exists|j: int|
                0 <= j < gs.len() && gs[j].hash@ == label + fs[i].0 && views(gs[j].paths@).contains(
                    fs[i].2,
                ),
{
    broadcast use vstd::seq_lib::group_to_multiset_ensures;

    let rk = repeated_keys(fs);
    lemma_first_occurrences(keys_of(fs));
    lemma_repeated_among_unique(fs, first_occurrences(keys_of(fs)));
    assert(rk == repeated_among(fs, first_occurrences(keys_of(fs))));
    assert forall|j: int, p: Seq<char>|
        #![trigger views(gs[j].paths@).contains(p)]
        0 <= j < gs.len() implies (views(gs[j].paths@).contains(p) <==> exists|i: int|
            0 <= i < fs.len() && fs[i].0 == rk[j] && fs[i].2 == p) by {
        assert(is_group_of(gs[j], fs, rk[j], label));
        if views(gs[j].paths@).contains(p) {
            lemma_group_member(gs[j], fs, rk[j], label, p);
            lemma_paths_with_key_source(fs, rk[j], p);
        }
        if exists|i: int| 0 <= i < fs.len() && fs[i].0 == rk[j] && fs[i].2 == p {
            let i = choose|i: int| 0 <= i < fs.len() && fs[i].0 == rk[j] && fs[i].2 == p;
            lemma_paths_with_key_has(fs, i);
            assert(paths_with_key(fs, rk[j]).to_multiset().count(p) > 0);
            assert(views(gs[j].paths@).to_multiset().count(p) > 0);
        }
    }
    assert forall|i: int|
        0 <= i < fs.len() && #[trigger] paths_with_key(fs, fs[i].0).len() >= 2 implies exists|j: int|
            0 <= j < gs.len() && gs[j].hash@ == label + fs[i].0 && views(gs[j].paths@).contains(
                fs[i].2,
            ) by {
        let k = fs[i].0;
        assert(keys_of(fs)[i] == k);
        assert(keys_of(fs).contains(k));
        assert(first_occurrences(keys_of(fs)).contains(k));
        assert(rk.contains(k));
        let j = choose|j: int| 0 <= j < rk.len() && rk[j] == k;
        assert(is_group_of(gs[j], fs, rk[j], label));
        lemma_paths_with_key_has(fs, i);
        assert(paths_with_key(fs, k).to_multiset().count(fs[i].2) > 0);
        assert(views(gs[j].paths@).to_multiset().count(fs[i].2) > 0);
    }
}

proof fn lemma_first_size_source(fs: Seq<(Seq<char>, u64, Seq<char>)>, k: Seq<char>)
    requires
        keys_of(fs).contains(k),
    ensures
        exists|i: int| 0 <= i < fs.len() && fs[i].0 == k && fs[i].1 == first_size_with_key(fs, k),
    decreases fs.len(),
{
    let d = fs.drop_last();
    if keys_of(d).contains(k) {
        lemma_first_size_source(d, k);
        let i = choose|i: int| 0 <= i < d.len() && d[i].0 == k && d[i].1 == first_size_with_key(d, k);
        assert(fs[i] == d[i]);
    } else {
        let w = choose|w: int| 0 <= w < keys_of(fs).len() && keys_of(fs)[w] == k;
        if w < d.len() {
            assert(keys_of(d)[w] == k);
        }
        assert(fs[fs.len() - 1].0 == k);
    }
}

/// In size mode a group is made of files of one size: every file whose path
/// the group holds has the group's size.
pub proof fn law_size_groups_uniform(gs: Seq<DuplicateGroup>, files: Seq<FileEntry>)
    requires
        groups_for(gs, size_keyed(files), "size:"@),
        keyed_paths(size_keyed(files)).no_duplicates(),
    ensures
        forall|j: int, i: int|
            0 <= j < gs.len() && 0 <= i < files.len() && #[trigger] views(gs[j].paths@).contains(
                #[trigger] files[i].path@,
            ) ==> files[i].size == gs[j].size,
{
    let fs = size_keyed(files);
    law_groups_exact(gs, fs, "size:"@);
    let rk = repeated_keys(fs);
    assert forall|j: int, i: int|
        0 <= j < gs.len() && 0 <= i < files.len() && #[trigger] views(gs[j].paths@).contains(
            #[trigger] files[i].path@,
        ) implies files[i].size == gs[j].size by {
        let p = files[i].path@;
        assert(fs[i].2 == p);
        let i2 = choose|i2: int| 0 <= i2 < fs.len() && fs[i2].0 == rk[j] && fs[i2].2 == p;
        assert(keyed_paths(fs)[i] == keyed_paths(fs)[i2]);
        assert(i == i2);
        assert(is_group_of(gs[j], fs, rk[j], "size:"@));
        assert(keys_of(fs)[i] == rk[j]);
        lemma_first_size_source(fs, rk[j]);
        let i3 = choose|i3: int| 0 <= i3 < fs.len() && fs[i3].0 == rk[j] && fs[i3].1 == first_size_with_key(fs, rk[j]);
        crate::text::lemma_decimal_injective(files[i].size as nat, files[i3].size as nat);
    }
}


/// What a scan reports are its most wasteful groups: as many as the limit
/// allows (all of them when it is 0), ordered by wasted bytes, each one a
/// group of the scan, and no group left out wastes more than the last one
/// reported.
pub proof fn law_reported_top(shown: Seq<DuplicateGroup>, gs: Seq<DuplicateGroup>, max_results: usize)
    requires
        reported(shown, gs, max_results),
    ensures
        shown.len() == (if max_results > 0 && gs.len() > max_results {
            max_results as int
        } else {
            gs.len() as int
        }),
        sorted_by_waste(shown),
        forall|g: DuplicateGroup| #[trigger]
            shown.to_multiset().count(g) <= gs.to_multiset().count(g),
        forall|g: DuplicateGroup| #[trigger]
            gs.to_multiset().count(g) > shown.to_multiset().count(g) ==> shown.len() > 0
                && g.wasted_bytes <= shown.last().wasted_bytes,
{
    broadcast use vstd::seq_lib::group_to_multiset_ensures;

    let ordered = choose|ordered: Seq<DuplicateGroup>|
        {
            &&& ordered.to_multiset() == gs.to_multiset()
            &&& sorted_by_waste(ordered)
            &&& shown == capped(ordered, max_results)
        };
    assert(ordered.to_multiset().len() == gs.to_multiset().len());
    assert(ordered.len() == gs.len());
    let m = shown.len() as int;
    let rest = ordered.skip(m);
    assert(ordered =~= shown + rest);
    vstd::seq_lib::lemma_multiset_commutative(shown, rest);
    assert(gs.to_multiset() =~= shown.to_multiset().add(rest.to_multiset()));
    assert forall|g: DuplicateGroup| #[trigger]
        gs.to_multiset().count(g) > shown.to_multiset().count(g) implies shown.len() > 0
            && g.wasted_bytes <= shown.last().wasted_bytes by {
        assert(rest.to_multiset().count(g) > 0);
        assert(rest.contains(g));
        let i = choose|i: int| 0 <= i < rest.len() && rest[i] == g;
        assert(ordered[m + i] == g);
        assert(m > 0);
        assert(shown.last() == ordered[m - 1]);
    }
}


/// The include patterns of a duplicate scan are alternatives: a file within
/// the size limits is admitted exactly when no patterns are given or some
/// pattern of the list, wherever it stands, matches its name.
pub proof fn law_admits_any_pattern(o: DuplicateOptions, name: Seq<char>, size: u64)
    ensures
        admits(o, name, size) <==> {
            &&& (o.include_patterns@.len() == 0 || exists|i: int|
                0 <= i < o.include_patterns@.len() && glob_matches(#[trigger] o.include_patterns@[i]@, name))
            &&& (o.min_size == 0 || size >= o.min_size)
            &&& (o.max_size == 0 || size <= o.max_size)
        },
{
    let ps = views(o.include_patterns@);
    if exists|i: int| 0 <= i < o.include_patterns@.len() && glob_matches(#[trigger] o.include_patterns@[i]@, name) {
        let i = choose|i: int| 0 <= i < o.include_patterns@.len() && glob_matches(#[trigger] o.include_patterns@[i]@, name);
        assert(ps[i] == o.include_patterns@[i]@);
    }
    if any_matches(ps, name) {
        let i = choose|i: int| 0 <= i < ps.len() && glob_matches(#[trigger] ps[i], name);
        assert(ps[i] == o.include_patterns@[i]@);
    }
}

/// In name mode a group is made of files of one name, written exactly as
/// the group's hash gives it after `name:`: files whose names differ (in
/// case too) never share a group.
pub proof fn law_name_groups_share_the_name(gs: Seq<DuplicateGroup>, files: Seq<FileEntry>)
    requires
        groups_for(gs, name_keyed(files), "name:"@),
        keyed_paths(name_keyed(files)).no_duplicates(),
    ensures
        forall|j: int, i: int|
            0 <= j < gs.len() && 0 <= i < files.len() && #[trigger] views(gs[j].paths@).contains(
                #[trigger] files[i].path@,
            ) ==> gs[j].hash@ == "name:"@ + files[i].name@,
{
    let fs = name_keyed(files);
    law_groups_exact(gs, fs, "name:"@);
    let rk = repeated_keys(fs);
    assert forall|j: int, i: int|
        0 <= j < gs.len() && 0 <= i < files.len() && #[trigger] views(gs[j].paths@).contains(
            #[trigger] files[i].path@,
        ) implies gs[j].hash@ == "name:"@ + files[i].name@ by {
        let p = files[i].path@;
        assert(fs[i].2 == p);
        let i2 = choose|i2: int| 0 <= i2 < fs.len() && fs[i2].0 == rk[j] && fs[i2].2 == p;
        assert(keyed_paths(fs)[i] == keyed_paths(fs)[i2]);
        assert(i == i2);
        assert(is_group_of(gs[j], fs, rk[j], "name:"@));
        assert(fs[i].0 == files[i].name@);
    }
}

}
