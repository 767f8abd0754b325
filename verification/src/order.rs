//! Strictly increasing lists under a strict total order: what iterating a
//! `BTreeSet` or the keys of a `BTreeMap` yields.
use vstd::prelude::*;

verus! {

/// `lt` is irreflexive, transitive and total.
pub open spec fn strict_total<T>(lt: spec_fn(T, T) -> bool) -> bool {
    &&& forall|a: T| !(#[trigger] lt(a, a))
    &&& forall|a: T, b: T, c: T| #[trigger] lt(a, b) && #[trigger] lt(b, c) ==> lt(a, c)
    &&& forall|a: T, b: T| a == b || #[trigger] lt(a, b) || lt(b, a)
}

/// Strictly increasing under `lt`.
pub open spec fn increasing<T>(l: Seq<T>, lt: spec_fn(T, T) -> bool) -> bool {
    forall|i: int, j: int| 0 <= i < j < l.len() ==> lt(l[i], l[j])
}

/// `a` and `b` hold the same elements.
pub open spec fn same_members<T>(a: Seq<T>, b: Seq<T>) -> bool {
    forall|t: T| a.contains(t) <==> b.contains(t)
}

/// The elements of `elems`, once each, in increasing order.
pub open spec fn ordered_set<T>(elems: Seq<T>, lt: spec_fn(T, T) -> bool) -> Seq<T> {
    choose|l: Seq<T>| increasing(l, lt) && same_members(l, elems)
}

pub proof fn lemma_increasing_unique<T>(a: Seq<T>, b: Seq<T>, lt: spec_fn(T, T) -> bool)
    requires
        strict_total(lt),
        increasing(a, lt),
        increasing(b, lt),
        same_members(a, b),
    ensures
        a == b,
    decreases a.len(),
{
    if a.len() == 0 {
        if b.len() > 0 {
            assert(b.contains(b[0]));
        }
        assert(a =~= b);
    } else {
        assert(a.contains(a[0]));
        assert(b.len() > 0);
        assert(b.contains(b[0]));
        if a[0] != b[0] {
            let i = choose|i: int| 0 <= i < a.len() && a[i] == b[0];
            let j = choose|j: int| 0 <= j < b.len() && b[j] == a[0];
            assert(lt(a[0], a[i]));
            assert(lt(b[0], b[j]));
            assert(lt(a[0], a[0]));
        }
        let a1 = a.drop_first();
        let b1 = b.drop_first();
        assert forall|t: T| a1.contains(t) implies b1.contains(t) by {
            let i = choose|i: int| 0 <= i < a1.len() && a1[i] == t;
            assert(a.contains(t)) by {
                assert(a[i + 1] == t);
            }
            let j = choose|j: int| 0 <= j < b.len() && b[j] == t;
            if j == 0 {
                assert(lt(a[0], a[i + 1]));
            }
            assert(b1[j - 1] == t);
        }
        assert forall|t: T| b1.contains(t) implies a1.contains(t) by {
            let j = choose|j: int| 0 <= j < b1.len() && b1[j] == t;
            assert(b.contains(t)) by {
                assert(b[j + 1] == t);
            }
            let i = choose|i: int| 0 <= i < a.len() && a[i] == t;
            if i == 0 {
                assert(lt(b[0], b[j + 1]));
            }
            assert(a1[i - 1] == t);
        }
        lemma_increasing_unique(a1, b1, lt);
        assert(a =~= seq![a[0]] + a1);
        assert(b =~= seq![b[0]] + b1);
    }
}

/// Any strictly increasing list with the members of `elems` is
/// `ordered_set(elems, lt)`.
pub proof fn lemma_ordered_set_is<T>(l: Seq<T>, elems: Seq<T>, lt: spec_fn(T, T) -> bool)
    requires
        strict_total(lt),
        increasing(l, lt),
        same_members(l, elems),
    ensures
        ordered_set(elems, lt) == l,
{
    let c = ordered_set(elems, lt);
    assert(increasing(c, lt) && same_members(c, elems));
    assert(same_members(c, l));
    lemma_increasing_unique(c, l, lt);
}

/// The first index from `from` on whose element comes after `x`, in an
/// increasing sequence whose elements before `from` come before `x`.
proof fn insert_position<T>(l: Seq<T>, x: T, lt: spec_fn(T, T) -> bool, from: int) -> (p: int)
    requires
        strict_total(lt),
        increasing(l, lt),
        !l.contains(x),
        0 <= from <= l.len(),
        forall|i: int| 0 <= i < from ==> lt(#[trigger] l[i], x),
    ensures
        from <= p <= l.len(),
        forall|i: int| 0 <= i < p ==> lt(#[trigger] l[i], x),
        forall|i: int| p <= i < l.len() ==> lt(x, #[trigger] l[i]),
    decreases l.len() - from,
{
    if from == l.len() {
        from
    } else if lt(x, l[from]) {
        assert forall|i: int| from <= i < l.len() implies lt(x, #[trigger] l[i]) by {
            if i > from {
                assert(lt(l[from], l[i]));
            }
        }
        from
    } else {
        assert(l[from] != x) by {
            assert(l.contains(l[from]));
        }
        assert(lt(l[from], x));
        insert_position(l, x, lt, from + 1)
    }
}

proof fn ordered_witness<T>(elems: Seq<T>, lt: spec_fn(T, T) -> bool) -> (l: Seq<T>)
    requires
        strict_total(lt),
    ensures
        increasing(l, lt),
        same_members(l, elems),
    decreases elems.len(),
{
    if elems.len() == 0 {
        let l = Seq::<T>::empty();
        assert forall|t: T| l.contains(t) <==> elems.contains(t) by {}
        l
    } else {
        let prev = ordered_witness(elems.drop_last(), lt);
        let x = elems.last();
        assert forall|t: T| elems.contains(t) <==> elems.drop_last().contains(t) || t == x by {
            if elems.contains(t) {
                let k = choose|k: int| 0 <= k < elems.len() && elems[k] == t;
                if k < elems.len() - 1 {
                    assert(elems.drop_last()[k] == t);
                }
            }
            if elems.drop_last().contains(t) {
                let k = choose|k: int| 0 <= k < elems.drop_last().len() && elems.drop_last()[k] == t;
                assert(elems[k] == t);
            }
            if t == x {
                assert(elems[elems.len() - 1] == t);
            }
        }
        if prev.contains(x) {
            prev
        } else {
            let p = insert_position(prev, x, lt, 0);
            let l = prev.insert(p, x);
            assert forall|i: int, j: int| 0 <= i < j < l.len() implies lt(l[i], l[j]) by {
                if j < p {
                    assert(l[i] == prev[i] && l[j] == prev[j]);
                } else if j == p {
                    assert(l[i] == prev[i]);
                } else if i < p {
                    assert(l[i] == prev[i] && l[j] == prev[j - 1]);
                    assert(lt(prev[i], x) && lt(x, prev[j - 1]));
                } else if i == p {
                    assert(l[j] == prev[j - 1]);
                } else {
                    assert(l[i] == prev[i - 1] && l[j] == prev[j - 1]);
                }
            }
            assert forall|t: T| l.contains(t) <==> elems.contains(t) by {
                if l.contains(t) {
                    let i = choose|i: int| 0 <= i < l.len() && l[i] == t;
                    if i < p {
                        assert(prev[i] == t);
                        assert(prev.contains(t));
                    } else if i > p {
                        assert(prev[i - 1] == t);
                        assert(prev.contains(t));
                    }
                }
                if prev.contains(t) {
                    let i = choose|i: int| 0 <= i < prev.len() && prev[i] == t;
                    if i < p {
                        assert(l[i] == t);
                    } else {
                        assert(l[i + 1] == t);
                    }
                }
                if t == x {
                    assert(l[p] == t);
                }
            }
            l
        }
    }
}

/// `ordered_set(elems, lt)` is strictly increasing and holds the members of
/// `elems`.
pub proof fn lemma_ordered_set<T>(elems: Seq<T>, lt: spec_fn(T, T) -> bool)
    requires
        strict_total(lt),
    ensures
        increasing(ordered_set(elems, lt), lt),
        same_members(ordered_set(elems, lt), elems),
{
    let w = ordered_witness(elems, lt);
    assert(increasing(w, lt) && same_members(w, elems));
}

} // verus!
