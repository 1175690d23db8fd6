//! The order in which paths are listed: the order of their components, as
//! `std::path::Path` compares them. A path splits at `/` into components:
//! the root (a leading `/`), the current directory (a leading `.` of a
//! relative path), parent directories (`..`) and normal names; empty and
//! other `.` pieces are dropped. Components compare by kind in that order,
//! and names by their characters; paths compare component by component.

use vstd::prelude::*;
use crate::text::{char_views, chars_of, lemma_split_on_nonempty, split_chars, split_on, views};

verus! {

broadcast use vstd::seq_lib::group_to_multiset_ensures;

/// Text order: by code point, a text before the longer texts it begins.
pub open spec fn text_le(a: Seq<char>, b: Seq<char>) -> bool
    decreases a.len(),
{
    if a.len() == 0 {
        true
    } else if b.len() == 0 {
        false
    } else if a[0] != b[0] {
        a[0] < b[0]
    } else {
        text_le(a.drop_first(), b.drop_first())
    }
}

/// The kind of a component: 0 root, 1 current directory, 2 parent
/// directory, 3 normal name; the text is the name of a normal component and
/// empty otherwise.
pub open spec fn normal_components(ps: Seq<Seq<char>>) -> Seq<(int, Seq<char>)>
    decreases ps.len(),
{
    if ps.len() == 0 {
        Seq::empty()
    } else {
        let rest = normal_components(ps.drop_last());
        let p = ps.last();
        if p.len() == 0 || p == seq!['.'] {
            rest
        } else if p == seq!['.', '.'] {
            rest.push((2, Seq::<char>::empty()))
        } else {
            rest.push((3, p))
        }
    }
}

/// The components of a path (`Path::components`).
pub open spec fn components(p: Seq<char>) -> Seq<(int, Seq<char>)> {
    let ps = split_on(p, '/');
    if p.len() > 0 && p[0] == '/' {
        seq![(0int, Seq::<char>::empty())] + normal_components(ps)
    } else if ps[0] == seq!['.'] {
        seq![(1int, Seq::<char>::empty())] + normal_components(ps.drop_first())
    } else {
        normal_components(ps)
    }
}

/// Component `x` comes strictly before component `y`.
pub open spec fn component_before(x: (int, Seq<char>), y: (int, Seq<char>)) -> bool {
    x.0 < y.0 || (x.0 == y.0 && text_le(x.1, y.1) && x.1 != y.1)
}

/// Component lists compared element by element, a list before the longer
/// lists it begins.
pub open spec fn components_le(a: Seq<(int, Seq<char>)>, b: Seq<(int, Seq<char>)>) -> bool
    decreases a.len(),
{
    if a.len() == 0 {
        true
    } else if b.len() == 0 {
        false
    } else if a[0] == b[0] {
        components_le(a.drop_first(), b.drop_first())
    } else {
        component_before(a[0], b[0])
    }
}

/// `a` comes no later than `b` in the path order.
pub open spec fn path_le(a: Seq<char>, b: Seq<char>) -> bool {
    components_le(components(a), components(b))
}

proof fn lemma_text_order(a: Seq<char>, b: Seq<char>, c: Seq<char>)
    ensures
        text_le(a, b) || text_le(b, a),
        text_le(a, b) && text_le(b, a) ==> a == b,
        text_le(a, b) && text_le(b, c) ==> text_le(a, c),
    decreases a.len(),
{
    if a.len() > 0 && b.len() > 0 && c.len() > 0 {
        lemma_text_order(a.drop_first(), b.drop_first(), c.drop_first());
        if text_le(a, b) && text_le(b, a) {
            assert(a =~= seq![a[0]] + a.drop_first());
            assert(b =~= seq![b[0]] + b.drop_first());
        }
    } else if a.len() > 0 && b.len() > 0 {
        lemma_text_order(a.drop_first(), b.drop_first(), b.drop_first());
        if text_le(a, b) && text_le(b, a) {
            assert(a =~= seq![a[0]] + a.drop_first());
            assert(b =~= seq![b[0]] + b.drop_first());
        }
    } else if a.len() == 0 && b.len() == 0 {
        assert(a =~= b);
    }
}

proof fn lemma_component_order(x: (int, Seq<char>), y: (int, Seq<char>), z: (int, Seq<char>))
    ensures
        x != y ==> component_before(x, y) || component_before(y, x),
        component_before(x, y) ==> x != y && !component_before(y, x),
        component_before(x, y) && component_before(y, z) ==> component_before(x, z),
{
    lemma_text_order(x.1, y.1, z.1);
    lemma_text_order(y.1, x.1, z.1);
    lemma_text_order(x.1, z.1, y.1);
}

proof fn lemma_components_order(a: Seq<(int, Seq<char>)>, b: Seq<(int, Seq<char>)>, c: Seq<(int, Seq<char>)>)
    ensures
        components_le(a, b) || components_le(b, a),
        components_le(a, b) && components_le(b, c) ==> components_le(a, c),
    decreases a.len(),
{
    if a.len() > 0 && b.len() > 0 && c.len() > 0 {
        lemma_components_order(a.drop_first(), b.drop_first(), c.drop_first());
        lemma_component_order(a[0], b[0], c[0]);
    } else if a.len() > 0 && b.len() > 0 {
        lemma_components_order(a.drop_first(), b.drop_first(), b.drop_first());
        lemma_component_order(a[0], b[0], b[0]);
    }
}

/// The path order is total and transitive (paths with the same components,
/// such as `a//b` and `a/b`, come in either order).
pub proof fn lemma_path_order(a: Seq<char>, b: Seq<char>, c: Seq<char>)
    ensures
        path_le(a, b) || path_le(b, a),
        path_le(a, b) && path_le(b, c) ==> path_le(a, c),
{
    lemma_components_order(components(a), components(b), components(c));
}

/// A component of a path.
struct PathComponent {
    kind: u8,
    text: Vec<char>,
}

spec fn component_view(c: PathComponent) -> (int, Seq<char>) {
    (c.kind as int, c.text@)
}

spec fn component_views(cs: Seq<PathComponent>) -> Seq<(int, Seq<char>)> {
    cs.map_values(|c: PathComponent| component_view(c))
}

/// Equality of two character vectors.
fn chars_equal(a: &Vec<char>, b: &Vec<char>) -> (r: bool)
    ensures
        r == (a@ == b@),
{
    if a.len() != b.len() {
        return false;
    }
    let mut i: usize = 0;
    while i < a.len()
        invariant
            i <= a.len() == b.len(),
            a@.take(i as int) == b@.take(i as int),
        decreases a.len() - i,
    {
        if a[i] != b[i] {
            return false;
        }
        assert(a@.take(i + 1) =~= a@.take(i as int).push(a@[i as int]));
        assert(b@.take(i + 1) =~= b@.take(i as int).push(b@[i as int]));
        i = i + 1;
    }
    assert(a@.take(a.len() as int) =~= a@);
    assert(b@.take(b.len() as int) =~= b@);
    true
}

/// Decides `text_le`.
fn text_le_chars(a: &Vec<char>, b: &Vec<char>) -> (r: bool)
    ensures
        r == text_le(a@, b@),
{
    let mut i: usize = 0;
    assert(a@.skip(0) =~= a@);
    assert(b@.skip(0) =~= b@);
    while i < a.len() && i < b.len() && a[i] == b[i]
        invariant
            i <= a.len(),
            i <= b.len(),
            text_le(a@, b@) == text_le(a@.skip(i as int), b@.skip(i as int)),
        decreases a.len() - i,
    {
        assert(a@.skip(i as int).drop_first() =~= a@.skip(i + 1));
        assert(b@.skip(i as int).drop_first() =~= b@.skip(i + 1));
        i = i + 1;
    }
    if i == a.len() {
        true
    } else if i == b.len() {
        false
    } else {
        assert(a@.skip(i as int)[0] == a[i as int]);
        assert(b@.skip(i as int)[0] == b[i as int]);
        a[i] < b[i]
    }
}

/// The components of the path `s`.
fn components_of(s: &str) -> (r: Vec<PathComponent>)
    ensures
        component_views(r@) == components(s@),
{
    let cs = chars_of(s);
    let ps = split_chars(&cs, '/');
    let ghost pv = char_views(ps@);
    proof {
        lemma_split_on_nonempty(cs@, '/');
    }
    assert(pv.len() >= 1);
    let mut out: Vec<PathComponent> = Vec::new();
    let mut k0: usize = 0;
    let ghost head: Seq<(int, Seq<char>)> = Seq::empty();
    assert(pv[0] == ps@[0]@);
    if cs.len() > 0 && cs[0] == '/' {
        out.push(PathComponent { kind: 0, text: Vec::new() });
        proof {
            head = seq![(0int, Seq::<char>::empty())];
        }
    } else if ps[0].len() == 1 && ps[0][0] == '.' {
        out.push(PathComponent { kind: 1, text: Vec::new() });
        k0 = 1;
        proof {
            head = seq![(1int, Seq::<char>::empty())];
            assert(pv[0] =~= seq!['.']);
        }
    } else {
        proof {
            if pv[0] == seq!['.'] {
                assert(pv[0].len() == 1);
            }
        }
    }
    assert(component_views(out@) =~= head);
    assert(pv.subrange(k0 as int, k0 as int) =~= Seq::<Seq<char>>::empty());
    let mut k: usize = k0;
    while k < ps.len()
        invariant
            k0 <= k <= ps.len(),
            pv == char_views(ps@),
            component_views(out@) == head + normal_components(pv.subrange(k0 as int, k as int)),
        decreases ps.len() - k,
    {
        let piece = &ps[k];
        assert(pv[k as int] == piece@);
        let ghost sub = pv.subrange(k0 as int, k + 1);
        assert(sub.drop_last() =~= pv.subrange(k0 as int, k as int));
        assert(sub.last() == piece@);
        let ghost before = out@;
        if piece.len() == 0 || (piece.len() == 1 && piece[0] == '.') {
            proof {
                if piece.len() == 1 {
                    assert(piece@ =~= seq!['.']);
                }
            }
        } else if piece.len() == 2 && piece[0] == '.' && piece[1] == '.' {
            out.push(PathComponent { kind: 2, text: Vec::new() });
            proof {
                assert(piece@ =~= seq!['.', '.']);
                assert(component_views(out@) =~= component_views(before).push((2int, Seq::<char>::empty())));
            }
        } else {
            out.push(PathComponent { kind: 3, text: piece.clone() });
            proof {
                if piece@ == seq!['.'] {
                    assert(piece@.len() == 1);
                }
                if piece@ == seq!['.', '.'] {
                    assert(piece@.len() == 2);
                }
                assert(component_views(out@) =~= component_views(before).push((3int, piece@)));
            }
        }
        k = k + 1;
    }
    proof {
        if k0 == 0 {
            assert(pv.subrange(0, pv.len() as int) =~= pv);
        } else {
            assert(pv.subrange(1, pv.len() as int) =~= pv.drop_first());
        }
    }
    out
}

/// Decides `components_le`.
fn components_le_exec(a: &Vec<PathComponent>, b: &Vec<PathComponent>) -> (r: bool)
    ensures
        r == components_le(component_views(a@), component_views(b@)),
{
    let ghost av = component_views(a@);
    let ghost bv = component_views(b@);
    let mut i: usize = 0;
    assert(av.skip(0) =~= av);
    assert(bv.skip(0) =~= bv);
    while i < a.len() && i < b.len()
        invariant
            i <= a.len(),
            i <= b.len(),
            av == component_views(a@),
            bv == component_views(b@),
            components_le(av, bv) == components_le(av.skip(i as int), bv.skip(i as int)),
        decreases a.len() - i,
    {
        assert(av.skip(i as int)[0] == component_view(a@[i as int]));
        assert(bv.skip(i as int)[0] == component_view(b@[i as int]));
        if a[i].kind != b[i].kind {
            return a[i].kind < b[i].kind;
        }
        if !chars_equal(&a[i].text, &b[i].text) {
            return text_le_chars(&a[i].text, &b[i].text);
        }
        assert(av.skip(i as int).drop_first() =~= av.skip(i + 1));
        assert(bv.skip(i as int).drop_first() =~= bv.skip(i + 1));
        i = i + 1;
    }
    i == a.len()
}

/// Decides `path_le` on strings.
pub fn path_le_str(a: &str, b: &str) -> (r: bool)
    ensures
        r == path_le(a@, b@),
{
    let ca = components_of(a);
    let cb = components_of(b);
    components_le_exec(&ca, &cb)
}

/// Every path comes no later than the ones after it.
pub open spec fn sorted_by_path(s: Seq<Seq<char>>) -> bool {
    forall|i: int, j: int| 0 <= i < j < s.len() ==> path_le(s[i], s[j])
}

/// The paths of `v` in path order (a stable insertion sort).
pub fn sort_paths(v: Vec<String>) -> (r: Vec<String>)
    ensures
        r@.len() == v@.len(),
        views(r@).to_multiset() == views(v@).to_multiset(),
        sorted_by_path(views(r@)),
{
    let mut r: Vec<String> = Vec::new();
    let mut i: usize = 0;
    while i < v.len()
        invariant
            i <= v.len(),
            r@.len() == i,
            views(r@).to_multiset() == views(v@.take(i as int)).to_multiset(),
            sorted_by_path(views(r@)),
        decreases v.len() - i,
    {
        let x = v[i].clone();
        // first position whose path comes strictly after x
        let mut p: usize = 0;
        while p < r.len() && path_le_str(r[p].as_str(), x.as_str())
            invariant
                p <= r@.len(),
                forall|q: int| 0 <= q < p ==> path_le(#[trigger] r@[q]@, x@),
            decreases r@.len() - p,
        {
            p = p + 1;
        }
        let ghost old_r = r@;
        proof {
            if p < r@.len() {
                lemma_path_order(x@, r@[p as int]@, x@);
            }
            assert forall|q: int| p <= q < old_r.len() implies path_le(x@, #[trigger] old_r[q]@) by {
                lemma_path_order(x@, old_r[p as int]@, old_r[q]@);
                assert(views(old_r)[p as int] == old_r[p as int]@);
                assert(views(old_r)[q] == old_r[q]@);
            }
        }
        r.insert(p, x);
        proof {
            assert(views(r@) =~= views(old_r).insert(p as int, x@));
            assert(v@.take(i + 1) =~= v@.take(i as int).push(v@[i as int]));
            assert(views(v@.take(i + 1)) =~= views(v@.take(i as int)).push(x@));
            vstd::seq_lib::to_multiset_insert(views(old_r), p as int, x@);
            assert forall|a: int, b: int| 0 <= a < b < views(r@).len() implies path_le(
                views(r@)[a],
                views(r@)[b],
            ) by {
                if a < p && b == p {
                } else if a == p && b > p {
                } else if a < p && b > p {
                    lemma_path_order(old_r[a]@, x@, old_r[b - 1]@);
                } else if b < p {
                    assert(views(old_r)[a] == old_r[a]@);
                    assert(views(old_r)[b] == old_r[b]@);
                } else {
                    assert(views(old_r)[a - 1] == old_r[a - 1]@);
                    assert(views(old_r)[b - 1] == old_r[b - 1]@);
                }
            }
        }
        i = i + 1;
    }
    assert(v@.take(v@.len() as int) =~= v@);
    r
}

}
