//! Sequence helpers shared by the indexes: unique pushes and removal of every copy of a value.

use vstd::prelude::*;
use vstd::laws_eq::obeys_concrete_eq;

verus! {

/// `s` with `x` appended unless `s` already holds it.
pub open spec fn pushed_unique<T>(s: Seq<T>, x: T) -> Seq<T> {
    if s.contains(x) {
        s
    } else {
        s.push(x)
    }
}

/// `s` without any occurrence of `x`, the other elements kept in order.
pub open spec fn without<T>(s: Seq<T>, x: T) -> Seq<T>
    decreases s.len(),
{
    if s.len() == 0 {
        s
    } else if s.last() == x {
        without(s.drop_last(), x)
    } else {
        without(s.drop_last(), x).push(s.last())
    }
}

pub proof fn lemma_pushed_unique<T>(s: Seq<T>, x: T)
    ensures
        forall|y: T| pushed_unique(s, x).contains(y) <==> (s.contains(y) || y == x),
        s.no_duplicates() ==> pushed_unique(s, x).no_duplicates(),
        pushed_unique(s, x).len() > 0,
{
    if !s.contains(x) {
        assert forall|y: T| pushed_unique(s, x).contains(y) <==> (s.contains(y) || y == x) by {
            if s.contains(y) {
                let i = choose|i: int| 0 <= i < s.len() && s[i] == y;
                assert(pushed_unique(s, x)[i] == y);
            }
            if y == x {
                assert(pushed_unique(s, x)[s.len() as int] == y);
            }
        }
    }
}

pub proof fn lemma_without<T>(s: Seq<T>, x: T)
    ensures
        forall|y: T| without(s, x).contains(y) <==> (s.contains(y) && y != x),
        s.no_duplicates() ==> without(s, x).no_duplicates(),
        !s.contains(x) ==> without(s, x) == s,
        without(s, x).len() <= s.len(),
    decreases s.len(),
{
    if s.len() > 0 {
        let t = s.drop_last();
        lemma_without(t, x);
        let w = without(t, x);
        assert forall|y: T| without(s, x).contains(y) <==> (s.contains(y) && y != x) by {
            if s.contains(y) && y != x {
                let i = choose|i: int| 0 <= i < s.len() && s[i] == y;
                if i < s.len() - 1 {
                    assert(t[i] == y);
                    assert(t.contains(y));
                    assert(w.contains(y));
                    let k = choose|k: int| 0 <= k < w.len() && w[k] == y;
                    if s.last() != x {
                        assert(without(s, x)[k] == y);
                    }
                } else {
                    assert(without(s, x) == w.push(s.last()));
                    assert(without(s, x)[w.len() as int] == y);
                }
            }
            if without(s, x).contains(y) {
                let i = choose|i: int| 0 <= i < without(s, x).len() && without(s, x)[i] == y;
                if s.last() != x && i == w.len() {
                    assert(y == s.last());
                    assert(s[s.len() - 1] == y);
                } else {
                    assert(w[i] == y);
                    assert(w.contains(y));
                    assert(t.contains(y));
                    let j = choose|j: int| 0 <= j < t.len() && t[j] == y;
                    assert(s[j] == t[j]);
                }
            }
        }
        if s.no_duplicates() {
            assert(t.no_duplicates());
            if s.last() != x {
                assert(!t.contains(s.last()));
            }
        }
        if !s.contains(x) {
            assert(!t.contains(x));
            assert(s.last() != x);
            assert(s == t.push(s.last()));
        }
    }
}

/// Appends `value` unless `values` already holds it.
pub fn push_unique<T: Copy + PartialEq>(values: &mut Vec<T>, value: T)
    requires
        obeys_concrete_eq::<T>(),
    ensures
        final(values)@ == pushed_unique(old(values)@, value),
{
    let mut i: usize = 0;
    let mut found = false;
    while i < values.len()
        invariant
            i <= values@.len(),
            values@ == old(values)@,
            obeys_concrete_eq::<T>(),
            found <==> exists|j: int| 0 <= j < i && values@[j] == value,
        decreases values@.len() - i,
    {
        proof {
            reveal(obeys_concrete_eq);
        }
        if values[i] == value {
            found = true;
        }
        i = i + 1;
    }
    if !found {
        values.push(value);
    }
}

/// A copy of `values` without any occurrence of `value`.
pub fn remove_all<T: Copy + PartialEq>(values: &Vec<T>, value: T) -> (r: Vec<T>)
    requires
        obeys_concrete_eq::<T>(),
    ensures
        r@ == without(values@, value),
{
    let mut r: Vec<T> = Vec::new();
    let mut i: usize = 0;
    while i < values.len()
        invariant
            i <= values@.len(),
            obeys_concrete_eq::<T>(),
            r@ == without(values@.take(i as int), value),
        decreases values@.len() - i,
    {
        proof {
            reveal(obeys_concrete_eq);
        }
        assert(values@.take(i + 1).drop_last() =~= values@.take(i as int));
        if values[i] != value {
            r.push(values[i]);
        }
        i = i + 1;
    }
    assert(values@.take(i as int) =~= values@);
    r
}

} // verus!

verus! {

/// Extending a prefix by one element adds exactly that element.
pub proof fn lemma_take_succ_contains<T>(s: Seq<T>, i: int, x: T)
    requires
        0 <= i < s.len(),
    ensures
        s.take(i + 1).contains(x) <==> (s.take(i).contains(x) || s[i] == x),
{
    let a = s.take(i + 1);
    let b = s.take(i);
    if a.contains(x) {
        let j = choose|j: int| 0 <= j < a.len() && a[j] == x;
        if j < i {
            assert(b[j] == x);
        }
    }
    if b.contains(x) {
        let j = choose|j: int| 0 <= j < b.len() && b[j] == x;
        assert(a[j] == x);
    }
    if s[i] == x {
        assert(a[i] == x);
    }
}

} // verus!

verus! {

/// Filtering with predicates that agree on the elements gives the same result.
pub proof fn lemma_filter_ext<T>(s: Seq<T>, p: spec_fn(T) -> bool, q: spec_fn(T) -> bool)
    requires
        forall|i: int| 0 <= i < s.len() ==> p(#[trigger] s[i]) == q(s[i]),
    ensures
        s.filter(p) == s.filter(q),
    decreases s.len(),
{
    reveal(Seq::filter);
    if s.len() > 0 {
        let t = s.drop_last();
        assert forall|i: int| 0 <= i < t.len() implies p(#[trigger] t[i]) == q(t[i]) by {
            assert(t[i] == s[i]);
        }
        lemma_filter_ext(t, p, q);
        assert(p(s[s.len() - 1]) == q(s[s.len() - 1]));
    }
}

/// Removing `x` after filtering is filtering with `x` excluded as well.
pub proof fn lemma_without_filter<T>(s: Seq<T>, p: spec_fn(T) -> bool, x: T)
    ensures
        without(s.filter(p), x) == s.filter(|v: T| p(v) && v != x),
    decreases s.len(),
{
    reveal(Seq::filter);
    if s.len() > 0 {
        let t = s.drop_last();
        lemma_without_filter(t, p, x);
        let l = s.last();
        if p(l) {
            let a = t.filter(p).push(l);
            assert(a.drop_last() =~= t.filter(p));
            assert(a.last() == l);
        }
    }
}

/// Filtering by "not among the first `i + 1` elements of `xs`" is filtering by "not among the first
/// `i`" and then removing `xs[i]`.
pub proof fn lemma_filter_not_in_take_succ<T>(s: Seq<T>, xs: Seq<T>, i: int)
    requires
        0 <= i < xs.len(),
    ensures
        s.filter(|v: T| !xs.take(i + 1).contains(v))
            == without(s.filter(|v: T| !xs.take(i).contains(v)), xs[i]),
{
    let p = |v: T| !xs.take(i).contains(v);
    lemma_without_filter(s, p, xs[i]);
    assert forall|j: int| 0 <= j < s.len() implies (|v: T| !xs.take(i + 1).contains(v))(#[trigger] s[j])
        == (|v: T| p(v) && v != xs[i])(s[j]) by {
        lemma_take_succ_contains(xs, i, s[j]);
    }
    lemma_filter_ext(s, |v: T| !xs.take(i + 1).contains(v), |v: T| p(v) && v != xs[i]);
}

/// Filtering by "not in the empty prefix" keeps everything.
pub proof fn lemma_filter_not_in_empty<T>(s: Seq<T>, xs: Seq<T>)
    ensures
        s.filter(|v: T| !xs.take(0).contains(v)) == s,
    decreases s.len(),
{
    reveal(Seq::filter);
    if s.len() > 0 {
        lemma_filter_not_in_empty(s.drop_last(), xs);
        assert(!xs.take(0).contains(s.last()));
        assert(s.drop_last().push(s.last()) =~= s);
    }
}

} // verus!

verus! {

/// Membership in a filtered sequence.
pub proof fn lemma_filter_contains<T>(s: Seq<T>, p: spec_fn(T) -> bool)
    ensures
        forall|x: T| #[trigger] s.filter(p).contains(x) <==> (s.contains(x) && p(x)),
        s.no_duplicates() ==> s.filter(p).no_duplicates(),
    decreases s.len(),
{
    reveal(Seq::filter);
    if s.len() > 0 {
        let t = s.drop_last();
        lemma_filter_contains(t, p);
        let l = s.last();
        let f = t.filter(p);
        assert forall|x: T| #[trigger] s.filter(p).contains(x) <==> (s.contains(x) && p(x)) by {
            if s.contains(x) && p(x) {
                let i = choose|i: int| 0 <= i < s.len() && s[i] == x;
                if i < s.len() - 1 {
                    assert(t[i] == x);
                    assert(t.contains(x));
                    assert(f.contains(x));
                    let j = choose|j: int| 0 <= j < f.len() && f[j] == x;
                    if p(l) {
                        assert(f.push(l)[j] == x);
                    }
                } else {
                    assert(f.push(l)[f.len() as int] == x);
                }
            }
            if s.filter(p).contains(x) {
                let j = choose|j: int| 0 <= j < s.filter(p).len() && s.filter(p)[j] == x;
                if p(l) && j == f.len() {
                    assert(s[s.len() - 1] == x);
                } else {
                    assert(f[j] == x);
                    assert(f.contains(x));
                    let i = choose|i: int| 0 <= i < t.len() && t[i] == x;
                    assert(s[i] == x);
                }
            }
        }
        if s.no_duplicates() {
            assert(t.no_duplicates());
            if p(l) {
                assert(!t.contains(l));
                assert(!f.contains(l));
            }
        }
    }
}

/// What inserting `x` at `p` does to membership and to the absence of duplicates.
pub proof fn lemma_insert_contains<T>(s: Seq<T>, p: int, x: T)
    requires
        0 <= p <= s.len(),
    ensures
        forall|y: T| #[trigger] s.insert(p, x).contains(y) <==> (s.contains(y) || y == x),
        s.no_duplicates() && !s.contains(x) ==> s.insert(p, x).no_duplicates(),
{
    let t = s.insert(p, x);
    assert forall|y: T| #[trigger] t.contains(y) <==> (s.contains(y) || y == x) by {
        if t.contains(y) {
            let i = choose|i: int| 0 <= i < t.len() && t[i] == y;
            if i < p {
                assert(s[i] == y);
            } else if i > p {
                assert(s[i - 1] == y);
            }
        }
        if s.contains(y) {
            let i = choose|i: int| 0 <= i < s.len() && s[i] == y;
            if i < p {
                assert(t[i] == y);
            } else {
                assert(t[i + 1] == y);
            }
        }
        if y == x {
            assert(t[p] == y);
        }
    }
    if s.no_duplicates() && !s.contains(x) {
        assert forall|i: int, j: int| 0 <= i < t.len() && 0 <= j < t.len() && i != j implies t[i] != t[j] by {
            if i != p && j != p {
                let si = if i < p { i } else { i - 1 };
                let sj = if j < p { j } else { j - 1 };
                assert(t[i] == s[si]);
                assert(t[j] == s[sj]);
            } else if i == p {
                let sj = if j < p { j } else { j - 1 };
                assert(t[j] == s[sj]);
                assert(s.contains(s[sj]));
            } else {
                let si = if i < p { i } else { i - 1 };
                assert(t[i] == s[si]);
                assert(s.contains(s[si]));
            }
        }
    }
}

} // verus!
