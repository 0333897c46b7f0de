//! Lists that hold the same values in another order.

use vstd::prelude::*;

verus! {

/// Whether `p` holds each of the numbers below `n` once.
pub open spec fn is_permutation(p: Seq<int>, n: int) -> bool {
    &&& p.len() == n
    &&& p.no_duplicates()
    &&& forall|i: int| 0 <= i < p.len() ==> 0 <= #[trigger] p[i] < n
}

/// The values of `s` in the order of `p`: in place `i` stands the one that `s` has in place `p[i]`.
pub open spec fn permuted<A>(s: Seq<A>, p: Seq<int>) -> Seq<A> {
    Seq::new(p.len(), |i: int| s[p[i]])
}

proof fn permutation_holds_all(p: Seq<int>, n: int, k: int)
    requires
        is_permutation(p, n),
        0 <= k < n,
    ensures
        p.contains(k),
{
    let below = vstd::set_lib::set_int_range(0, n);
    p.unique_seq_to_set();
    vstd::seq_lib::seq_to_set_is_finite(p);
    vstd::set_lib::lemma_int_range(0, n);
    assert(p.to_set().subset_of(below)) by {
        assert forall|v: int| p.to_set().contains(v) implies below.contains(v) by {
            let i = choose|i: int| 0 <= i < p.len() && p[i] == v;
            assert(0 <= p[i] < n);
        }
    }
    vstd::set_lib::lemma_subset_equality(p.to_set(), below);
    assert(below.contains(k));
}

/// The law of permutations: they keep the values of a list.
pub proof fn permuted_has_the_same<A>(s: Seq<A>, p: Seq<int>)
    requires
        is_permutation(p, s.len() as int),
    ensures
        permuted(s, p).to_multiset() == s.to_multiset(),
    decreases s.len(),
{
    let t = permuted(s, p);
    if s.len() == 0 {
        assert(t =~= s);
    } else {
        let n = s.len() as int;
        permutation_holds_all(p, n, n - 1);
        let k = choose|k: int| 0 <= k < p.len() && p[k] == n - 1;
        let q = p.remove(k);
        let front = s.drop_last();
        assert forall|i: int| 0 <= i < q.len() implies 0 <= #[trigger] q[i] < n - 1 by {
            let j = if i < k { i } else { i + 1 };
            assert(q[i] == p[j]);
            assert(p[j] != p[k]);
        }
        assert(q.no_duplicates()) by {
            assert forall|i: int, j: int| 0 <= i < q.len() && 0 <= j < q.len() && i != j implies q[i]
                != q[j] by {
                let i0 = if i < k { i } else { i + 1 };
                let j0 = if j < k { j } else { j + 1 };
                assert(q[i] == p[i0] && q[j] == p[j0]);
            }
        }
        permuted_has_the_same(front, q);
        assert(t.remove(k) =~= permuted(front, q));
        assert(t.remove(k).insert(k, t[k]) =~= t);
        vstd::seq_lib::to_multiset_insert(t.remove(k), k, t[k]);
        assert(s =~= front.push(s.last()));
        vstd::seq_lib::to_multiset_build(front, s.last());
    }
}

/// The values that `f` gives of a list, in order.
pub open spec fn given<A, B>(s: Seq<A>, f: spec_fn(A) -> Option<B>) -> Seq<B>
    decreases s.len(),
{
    if s.len() == 0 {
        seq![]
    } else {
        match f(s.last()) {
            Some(value) => given(s.drop_last(), f).push(value),
            None => given(s.drop_last(), f),
        }
    }
}

proof fn given_without<A, B>(s: Seq<A>, k: int, f: spec_fn(A) -> Option<B>)
    requires
        0 <= k < s.len(),
    ensures
        given(s, f).to_multiset() == (match f(s[k]) {
            Some(value) => given(s.remove(k), f).to_multiset().insert(value),
            None => given(s.remove(k), f).to_multiset(),
        }),
    decreases s.len(),
{
    let rest = s.remove(k);
    let front = s.drop_last();
    if k == s.len() - 1 {
        assert(rest =~= front);
        if let Some(value) = f(s[k]) {
            vstd::seq_lib::to_multiset_build(given(front, f), value);
        }
    } else {
        given_without(front, k, f);
        assert(rest.drop_last() =~= front.remove(k));
        assert(rest.last() == s.last());
        if let Some(value) = f(s.last()) {
            vstd::seq_lib::to_multiset_build(given(front, f), value);
            vstd::seq_lib::to_multiset_build(given(front.remove(k), f), value);
            if let Some(other) = f(s[k]) {
                let most = given(front.remove(k), f).to_multiset();
                assert(most.insert(other).insert(value) =~= most.insert(value).insert(other));
            }
        }
    }
}

/// The place in `t` of the last value of `s`, and what is left of both without it.
pub proof fn last_stands_in<A>(s: Seq<A>, t: Seq<A>) -> (k: int)
    requires
        s.len() > 0,
        s.to_multiset() == t.to_multiset(),
    ensures
        0 <= k < t.len(),
        t[k] == s.last(),
        s.drop_last().to_multiset() == t.remove(k).to_multiset(),
        s.len() == t.len(),
{
    broadcast use vstd::seq_lib::group_to_multiset_ensures;

    vstd::seq_lib::to_multiset_len(s);
    vstd::seq_lib::to_multiset_len(t);
    assert(s.contains(s[s.len() - 1]));
    assert(s.to_multiset().count(s.last()) > 0);
    assert(t.contains(s.last()));
    let k = choose|k: int| 0 <= k < t.len() && t[k] == s.last();
    assert(s.remove(s.len() - 1) =~= s.drop_last());
    k
}

/// The law of `given`: lists of the same values give the same values.
pub proof fn given_is_the_same<A, B>(s: Seq<A>, t: Seq<A>, f: spec_fn(A) -> Option<B>)
    requires
        s.to_multiset() == t.to_multiset(),
    ensures
        given(s, f).to_multiset() == given(t, f).to_multiset(),
    decreases s.len(),
{
    vstd::seq_lib::to_multiset_len(s);
    vstd::seq_lib::to_multiset_len(t);
    if s.len() == 0 {
        assert(s =~= t);
    } else {
        let k = last_stands_in(s, t);
        given_is_the_same(s.drop_last(), t.remove(k), f);
        given_without(t, k, f);
        if let Some(value) = f(s.last()) {
            vstd::seq_lib::to_multiset_build(given(s.drop_last(), f), value);
        }
    }
}

/// Lists of the same values hold a value both or neither, and are of the same length.
pub proof fn same_values<A>(s: Seq<A>, t: Seq<A>)
    requires
        s.to_multiset() == t.to_multiset(),
    ensures
        s.len() == t.len(),
        forall|x: A| #[trigger] s.contains(x) <==> t.contains(x),
{
    vstd::seq_lib::to_multiset_len(s);
    vstd::seq_lib::to_multiset_len(t);
    assert forall|x: A| #[trigger] s.contains(x) <==> t.contains(x) by {
        vstd::seq_lib::to_multiset_contains(s, x);
        vstd::seq_lib::to_multiset_contains(t, x);
    }
}

} // verus!
