//! Ordered sets of strings: the lexicographic order of `String`'s `Ord`, and
//! strictly increasing lists that stand for `BTreeSet<String>`.
use vstd::prelude::*;
use crate::text::{chars_eq, chars_of, code_point, join, push_str};

verus! {

/// `String`'s order: lexicographic by code point (UTF-8 byte order is the
/// same order).
pub open spec fn str_lt(a: Seq<char>, b: Seq<char>) -> bool
    decreases a.len(),
{
    if a.len() == 0 {
        b.len() > 0
    } else if b.len() == 0 {
        false
    } else if a[0] != b[0] {
        (a[0] as int) < (b[0] as int)
    } else {
        str_lt(a.drop_first(), b.drop_first())
    }
}

pub proof fn lemma_str_lt_irreflexive(a: Seq<char>)
    ensures
        !str_lt(a, a),
    decreases a.len(),
{
    if a.len() > 0 {
        lemma_str_lt_irreflexive(a.drop_first());
    }
}

pub proof fn lemma_str_lt_transitive(a: Seq<char>, b: Seq<char>, c: Seq<char>)
    requires
        str_lt(a, b),
        str_lt(b, c),
    ensures
        str_lt(a, c),
    decreases a.len(),
{
    if a.len() > 0 && b.len() > 0 && c.len() > 0 && a[0] == b[0] && b[0] == c[0] {
        lemma_str_lt_transitive(a.drop_first(), b.drop_first(), c.drop_first());
    }
}

pub proof fn lemma_str_lt_total(a: Seq<char>, b: Seq<char>)
    ensures
        a == b || str_lt(a, b) || str_lt(b, a),
    decreases a.len(),
{
    if a.len() > 0 && b.len() > 0 && a[0] == b[0] {
        lemma_str_lt_total(a.drop_first(), b.drop_first());
        if a.drop_first() == b.drop_first() {
            assert(a =~= seq![a[0]] + a.drop_first());
            assert(b =~= seq![b[0]] + b.drop_first());
        }
    } else if a.len() == 0 && b.len() == 0 {
        assert(a =~= b);
    } else if a.len() > 0 && b.len() > 0 {
        let x: char = a[0];
        let y: char = b[0];
        assert(x != y);
        assert((x as int) != (y as int));
    }
}

pub proof fn lemma_str_lt_asymmetric(a: Seq<char>, b: Seq<char>)
    requires
        str_lt(a, b),
    ensures
        !str_lt(b, a),
{
    if str_lt(b, a) {
        lemma_str_lt_transitive(a, b, a);
        lemma_str_lt_irreflexive(a);
    }
}

/// Whether `a` comes strictly before `b`.
pub fn chars_less(a: &Vec<char>, b: &Vec<char>) -> (r: bool)
    ensures
        r == str_lt(a@, b@),
{
    let mut i: usize = 0;
    assert(a@.skip(0) =~= a@);
    assert(b@.skip(0) =~= b@);
    while i < a.len() && i < b.len() && a[i] == b[i]
        invariant
            i <= a.len(),
            i <= b.len(),
            str_lt(a@, b@) == str_lt(a@.skip(i as int), b@.skip(i as int)),
        decreases a.len() - i,
    {
        assert(a@.skip(i as int).drop_first() =~= a@.skip(i + 1));
        assert(b@.skip(i as int).drop_first() =~= b@.skip(i + 1));
        i += 1;
    }
    if i == a.len() {
        assert(a@.skip(i as int).len() == 0);
        assert((i < b.len()) == str_lt(a@.skip(i as int), b@.skip(i as int)));
        i < b.len()
    } else if i == b.len() {
        assert(b@.skip(i as int).len() == 0);
        false
    } else {
        let x = a[i];
        let y = b[i];
        assert(a@.skip(i as int)[0] == x);
        assert(b@.skip(i as int)[0] == y);
        assert(x != y);
        code_point(x) < code_point(y)
    }
}

/// The characters of each string.
pub open spec fn str_views(v: Seq<String>) -> Seq<Seq<char>> {
    v.map_values(|s: String| s@)
}

/// Strictly increasing under `str_lt`: sorted, and no string twice.
pub open spec fn sorted_strict(l: Seq<Seq<char>>) -> bool {
    forall|i: int, j: int| 0 <= i < j < l.len() ==> str_lt(l[i], l[j])
}

/// `a` and `b` hold the same strings.
pub open spec fn same_elems(a: Seq<Seq<char>>, b: Seq<Seq<char>>) -> bool {
    forall|t: Seq<char>| a.contains(t) <==> b.contains(t)
}

/// The strings of `elems`, once each, in increasing order: what iterating a
/// `BTreeSet<String>` filled with `elems` yields.
pub open spec fn sorted_set(elems: Seq<Seq<char>>) -> Seq<Seq<char>> {
    choose|l: Seq<Seq<char>>| sorted_strict(l) && same_elems(l, elems)
}

pub proof fn lemma_sorted_unique(a: Seq<Seq<char>>, b: Seq<Seq<char>>)
    requires
        sorted_strict(a),
        sorted_strict(b),
        same_elems(a, b),
    ensures
        a == b,
    decreases a.len(),
{
    if a.len() == 0 {
        if b.len() > 0 {
            assert(b.contains(b[0]));
        }
        assert(a =~= b);
    } else {
        assert(a.contains(a[0]));
        assert(b.len() > 0);
        assert(b.contains(b[0]));
        if a[0] != b[0] {
            let i = choose|i: int| 0 <= i < a.len() && a[i] == b[0];
            let j = choose|j: int| 0 <= j < b.len() && b[j] == a[0];
            assert(i > 0);
            assert(j > 0);
            assert(str_lt(a[0], a[i]));
            assert(str_lt(b[0], b[j]));
            lemma_str_lt_asymmetric(a[0], b[0]);
        }
        let a1 = a.drop_first();
        let b1 = b.drop_first();
        assert forall|t: Seq<char>| a1.contains(t) implies b1.contains(t) by {
            let i = choose|i: int| 0 <= i < a1.len() && a1[i] == t;
            assert(a.contains(t)) by {
                assert(a[i + 1] == t);
            }
            let j = choose|j: int| 0 <= j < b.len() && b[j] == t;
            if j == 0 {
                assert(str_lt(a[0], a[i + 1]));
                lemma_str_lt_irreflexive(t);
            }
            assert(b1[j - 1] == t);
        }
        assert forall|t: Seq<char>| b1.contains(t) implies a1.contains(t) by {
            let j = choose|j: int| 0 <= j < b1.len() && b1[j] == t;
            assert(b.contains(t)) by {
                assert(b[j + 1] == t);
            }
            let i = choose|i: int| 0 <= i < a.len() && a[i] == t;
            if i == 0 {
                assert(str_lt(b[0], b[j + 1]));
                lemma_str_lt_irreflexive(t);
            }
            assert(a1[i - 1] == t);
        }
        lemma_sorted_unique(a1, b1);
        assert(a =~= seq![a[0]] + a1);
        assert(b =~= seq![b[0]] + b1);
    }
}

/// Any strictly increasing list with the same strings as `elems` is
/// `sorted_set(elems)`.
pub proof fn lemma_sorted_set_is(l: Seq<Seq<char>>, elems: Seq<Seq<char>>)
    requires
        sorted_strict(l),
        same_elems(l, elems),
    ensures
        sorted_set(elems) == l,
{
    let c = sorted_set(elems);
    assert(sorted_strict(c) && same_elems(c, elems));
    assert(same_elems(c, l));
    lemma_sorted_unique(c, l);
}

/// `BTreeSet::insert` on a strictly increasing list of strings.
pub fn insert_sorted(v: &mut Vec<String>, x: String)
    requires
        sorted_strict(str_views(old(v)@)),
    ensures
        sorted_strict(str_views(final(v)@)),
        forall|t: Seq<char>| #[trigger]
            str_views(final(v)@).contains(t) <==> str_views(old(v)@).contains(t) || t == x@,
{
    let ghost old_v = str_views(v@);
    let xc = chars_of(x.as_str());
    let mut p: usize = 0;
    while p < v.len()
        invariant
            p <= v.len(),
            str_views(v@) == old_v,
            xc@ == x@,
            forall|k: int| 0 <= k < p ==> str_lt(old_v[k], x@),
        ensures
            p <= v.len(),
            str_views(v@) == old_v,
            forall|k: int| 0 <= k < p ==> str_lt(old_v[k], x@),
            p < v.len() ==> !str_lt(old_v[p as int], x@),
        decreases v.len() - p,
    {
        let cur = chars_of(v[p].as_str());
        assert(cur@ == old_v[p as int]);
        if !chars_less(&cur, &xc) {
            break;
        }
        p += 1;
    }
    let present = if p < v.len() {
        let cur = chars_of(v[p].as_str());
        chars_eq(&cur, &xc)
    } else {
        false
    };
    if present {
        assert(old_v.contains(x@)) by {
            assert(old_v[p as int] == x@);
        }
        return;
    }
    assert(p < v.len() ==> old_v[p as int] != x@);
    proof {
        assert forall|k: int| p <= k < old_v.len() implies str_lt(x@, old_v[k]) by {
            if p < k {
                assert(str_lt(old_v[p as int], old_v[k]));
                if !str_lt(x@, old_v[p as int]) {
                    lemma_str_lt_total(old_v[p as int], x@);
                }
                lemma_str_lt_transitive(x@, old_v[p as int], old_v[k]);
            } else {
                lemma_str_lt_total(old_v[p as int], x@);
            }
        }
    }
    v.insert(p, x);
    proof {
        let nv = str_views(v@);
        assert(nv =~= old_v.insert(p as int, x@));
        assert forall|i: int, j: int| 0 <= i < j < nv.len() implies str_lt(nv[i], nv[j]) by {
            if j < p {
            } else if j == p {
            } else if i < p {
                assert(str_lt(old_v[i], x@));
                lemma_str_lt_transitive(old_v[i], x@, old_v[j - 1]);
            } else if i == p {
            } else {
            }
        }
        assert forall|t: Seq<char>| #[trigger]
            nv.contains(t) <==> old_v.contains(t) || t == x@ by {
            if nv.contains(t) {
                let i = choose|i: int| 0 <= i < nv.len() && nv[i] == t;
                if i < p {
                    assert(old_v[i] == t);
                } else if i > p {
                    assert(old_v[i - 1] == t);
                }
            }
            if old_v.contains(t) {
                let i = choose|i: int| 0 <= i < old_v.len() && old_v[i] == t;
                if i < p {
                    assert(nv[i] == t);
                } else {
                    assert(nv[i + 1] == t);
                }
            }
            if t == x@ {
                assert(nv[p as int] == t);
            }
        }
    }
}

/// Joins strings with a separator.
pub fn join_strings(v: &Vec<String>, sep: &str) -> (r: Vec<char>)
    ensures
        r@ == join(str_views(v@), sep@),
{
    let mut r: Vec<char> = Vec::new();
    let mut i: usize = 0;
    let ghost ps = str_views(v@);
    assert(ps.take(0) =~= Seq::<Seq<char>>::empty());
    while i < v.len()
        invariant
            i <= v.len(),
            ps == str_views(v@),
            r@ == join(ps.take(i as int), sep@),
        decreases v.len() - i,
    {
        assert(ps.take(i + 1).drop_last() =~= ps.take(i as int));
        if i > 0 {
            push_str(&mut r, sep);
        } else {
            assert(r@ =~= Seq::<char>::empty());
        }
        push_str(&mut r, v[i].as_str());
        i += 1;
    }
    assert(ps.take(v.len() as int) =~= ps);
    r
}

} // verus!
