//! Orders, and a stable sort by them.

use crate::text::{self, text_eq, text_precedes};
use vstd::prelude::*;

verus! {

/// A type whose values are ranked: some come before others, and those of which neither comes
/// before the other rank alike.
pub trait Ranked: Sized {
    /// Whether `self` comes before `other`.
    spec fn before(self, other: Self) -> bool;

    /// Of two values at most one comes before the other.
    proof fn before_is_one_way(a: Self, b: Self)
        requires
            a.before(b),
        ensures
            !b.before(a),
    ;

    /// What does not come before a value does not come before what ranks lower either.
    proof fn not_before_is_transitive(a: Self, b: Self, c: Self)
        requires
            !b.before(a),
            !c.before(b),
        ensures
            !c.before(a),
    ;

    /// Whether `self` comes before `other`.
    fn is_before(&self, other: &Self) -> (r: bool)
        ensures
            r == self.before(*other),
    ;
}

/// `s` with `x` put in front of the first value that does not come before `x`.
pub open spec fn placed<T: Ranked>(s: Seq<T>, x: T) -> Seq<T>
    decreases s.len(),
{
    if s.len() == 0 || !s[0].before(x) {
        seq![x] + s
    } else {
        seq![s[0]] + placed(s.drop_first(), x)
    }
}

/// The values of `s` by rank; those that rank alike keep their order.
pub open spec fn ranked<T: Ranked>(s: Seq<T>) -> Seq<T>
    decreases s.len(),
{
    if s.len() == 0 {
        s
    } else {
        placed(ranked(s.drop_first()), s[0])
    }
}

/// Whether no value of `s` comes before an earlier one.
pub open spec fn is_ranked<T: Ranked>(s: Seq<T>) -> bool {
    forall|i: int, j: int| 0 <= i < j < s.len() ==> !(#[trigger] s[j]).before(#[trigger] s[i])
}

/// The values of `s` that rank as `x` does, in order.
pub open spec fn alike<T: Ranked>(s: Seq<T>, x: T) -> Seq<T>
    decreases s.len(),
{
    if s.len() == 0 {
        s
    } else {
        let rest = alike(s.drop_first(), x);
        if !s[0].before(x) && !x.before(s[0]) {
            seq![s[0]] + rest
        } else {
            rest
        }
    }
}

proof fn placed_at<T: Ranked>(s: Seq<T>, x: T, at: int)
    requires
        0 <= at <= s.len(),
        forall|j: int| 0 <= j < at ==> (#[trigger] s[j]).before(x),
        at < s.len() ==> !s[at].before(x),
    ensures
        placed(s, x) == s.insert(at, x),
    decreases s.len(),
{
    if at == 0 {
        assert(seq![x] + s =~= s.insert(0, x));
    } else {
        assert(s[0].before(x));
        assert forall|j: int| 0 <= j < at - 1 implies (#[trigger] s.drop_first()[j]).before(x) by {
            assert(s.drop_first()[j] == s[j + 1]);
        }
        placed_at(s.drop_first(), x, at - 1);
        assert(seq![s[0]] + s.drop_first().insert(at - 1, x) =~= s.insert(at, x));
    }
}

/// The place at which `placed` puts the value.
proof fn place_of<T: Ranked>(s: Seq<T>, x: T) -> (at: int)
    ensures
        0 <= at <= s.len(),
        forall|j: int| 0 <= j < at ==> (#[trigger] s[j]).before(x),
        at < s.len() ==> !s[at].before(x),
        placed(s, x) == s.insert(at, x),
    decreases s.len(),
{
    if s.len() == 0 || !s[0].before(x) {
        placed_at(s, x, 0);
        0
    } else {
        let at = place_of(s.drop_first(), x) + 1;
        assert forall|j: int| 0 <= j < at implies (#[trigger] s[j]).before(x) by {
            if j > 0 {
                assert(s[j] == s.drop_first()[j - 1]);
            }
        }
        placed_at(s, x, at);
        at
    }
}

proof fn placed_keeps_rank<T: Ranked>(s: Seq<T>, x: T)
    requires
        is_ranked(s),
    ensures
        is_ranked(placed(s, x)),
{
    let at = place_of(s, x);
    let t = placed(s, x);
    assert forall|i: int, j: int| 0 <= i < j < t.len() implies !(#[trigger] t[j]).before(
        #[trigger] t[i],
    ) by {
        let i0 = if i < at { i } else { i - 1 };
        let j0 = if j < at { j } else { j - 1 };
        if i == at {
            if j0 > at {
                assert(!s[j0].before(s[at]));
                T::not_before_is_transitive(x, s[at], s[j0]);
            }
        } else if j == at {
            T::before_is_one_way(s[i0], x);
        } else {
            assert(!s[j0].before(s[i0]));
        }
    }
}

proof fn placed_keeps_alike<T: Ranked>(s: Seq<T>, x: T, y: T)
    ensures
        alike(placed(s, x), y) == alike(seq![x] + s, y),
    decreases s.len(),
{
    if s.len() > 0 && s[0].before(x) {
        reveal_with_fuel(alike, 3);
        let rest = s.drop_first();
        placed_keeps_alike(rest, x, y);
        let t = seq![s[0]] + placed(rest, x);
        assert(t.drop_first() =~= placed(rest, x));
        assert((seq![x] + rest).drop_first() =~= rest);
        assert((seq![x] + s).drop_first() =~= s);
        let s0 = !s[0].before(y) && !y.before(s[0]);
        let x0 = !x.before(y) && !y.before(x);
        if s0 && x0 {
            T::not_before_is_transitive(x, y, s[0]);
        }
    }
}

/// The law of the sort: its result is ranked, holds the same values, and keeps the order of those
/// that rank alike.
pub proof fn ranked_is_a_stable_sort<T: Ranked>(s: Seq<T>)
    ensures
        is_ranked(ranked(s)),
        ranked(s).len() == s.len(),
        ranked(s).to_multiset() == s.to_multiset(),
        forall|y: T| #[trigger] alike(ranked(s), y) == alike(s, y),
    decreases s.len(),
{
    if s.len() > 0 {
        let rest = s.drop_first();
        ranked_is_a_stable_sort(rest);
        placed_keeps_rank(ranked(rest), s[0]);
        let at = place_of(ranked(rest), s[0]);
        ranked(rest).insert_ensures(at, s[0]);
        vstd::seq_lib::to_multiset_insert(ranked(rest), at, s[0]);
        assert(s =~= rest.insert(0, s[0]));
        vstd::seq_lib::to_multiset_insert(rest, 0, s[0]);
        assert forall|y: T| #[trigger] alike(ranked(s), y) == alike(s, y) by {
            placed_keeps_alike(ranked(rest), s[0], y);
            assert((seq![s[0]] + ranked(rest)).drop_first() =~= ranked(rest));
            assert(alike(ranked(rest), y) == alike(rest, y));
        }
    }
}

/// The law of the sort: what is ranked stays as it is.
pub proof fn ranked_stays<T: Ranked>(s: Seq<T>)
    requires
        is_ranked(s),
    ensures
        ranked(s) == s,
    decreases s.len(),
{
    if s.len() > 0 {
        let rest = s.drop_first();
        assert forall|i: int, j: int| 0 <= i < j < rest.len() implies !(#[trigger] rest[j]).before(
            #[trigger] rest[i],
        ) by {
            assert(rest[j] == s[j + 1] && rest[i] == s[i + 1]);
        }
        ranked_stays(rest);
        if rest.len() > 0 {
            assert(rest[0] == s[1]);
        }
        assert(seq![s[0]] + rest =~= s);
    }
}

/// Where `x` goes in front of the first value that does not come before it.
fn find_place<T: Ranked>(list: &Vec<T>, x: &T) -> (at: usize)
    requires
        is_ranked(list@),
    ensures
        at <= list@.len(),
        placed(list@, *x) == list@.insert(at as int, *x),
{
    let mut low: usize = 0;
    let mut high: usize = list.len();
    while low < high
        invariant
            low <= high <= list@.len(),
            is_ranked(list@),
            forall|j: int| 0 <= j < low ==> (#[trigger] list@[j]).before(*x),
            forall|j: int| high <= j < list@.len() ==> !(#[trigger] list@[j]).before(*x),
        decreases high - low,
    {
        let mid: usize = low + (high - low) / 2;
        if list[mid].is_before(x) {
            assert forall|j: int| 0 <= j < mid + 1 implies (#[trigger] list@[j]).before(*x) by {
                if j < mid && !list@[j].before(*x) {
                    T::not_before_is_transitive(*x, list@[j], list@[mid as int]);
                }
            }
            low = mid + 1;
        } else {
            assert forall|j: int| mid <= j < list@.len() implies !(#[trigger] list@[j]).before(
                *x,
            ) by {
                if mid < j {
                    T::not_before_is_transitive(*x, list@[mid as int], list@[j]);
                }
            }
            high = mid;
        }
    }
    proof {
        placed_at(list@, *x, low as int);
    }
    low
}

/// Sorts the list by rank; values that rank alike keep their order.
pub fn sort_by_rank<T: Ranked>(list: &mut Vec<T>)
    ensures
        final(list)@ == ranked(old(list)@),
{
    let ghost all = list@;
    let mut out: Vec<T> = Vec::new();
    assert(all.skip(all.len() as int) =~= Seq::<T>::empty());
    while list.len() > 0
        invariant
            list@.len() <= all.len(),
            list@ == all.take(list@.len() as int),
            out@ == ranked(all.skip(list@.len() as int)),
        decreases list@.len(),
    {
        let ghost n = list@.len() as int;
        if let Some(x) = list.pop() {
            proof {
                ranked_is_a_stable_sort(all.skip(n));
                assert(all.skip(n - 1).drop_first() =~= all.skip(n));
                assert(x == all.skip(n - 1)[0]);
                assert(list@ =~= all.take(n - 1));
            }
            let at = find_place(&out, &x);
            out.insert(at, x);
        }
    }
    assert(all.skip(0) =~= all);
    std::mem::swap(list, &mut out);
}

impl Ranked for String {
    open spec fn before(self, other: Self) -> bool {
        text::text_less(self@, other@)
    }

    proof fn before_is_one_way(a: Self, b: Self) {
        if b.before(a) {
            text::text_order_transitive(a@, b@, a@);
            text::text_order_irreflexive(a@);
        }
    }

    proof fn not_before_is_transitive(a: Self, b: Self, c: Self) {
        text::text_order_total(a@, b@);
        text::text_order_total(b@, c@);
        if c.before(a) {
            if a@ == b@ || b@ == c@ {
            } else {
                text::text_order_transitive(c@, a@, b@);
            }
        }
    }

    fn is_before(&self, other: &Self) -> (r: bool) {
        text_precedes(self.as_str(), other.as_str())
    }
}

impl Ranked for i64 {
    open spec fn before(self, other: Self) -> bool {
        self < other
    }

    proof fn before_is_one_way(a: Self, b: Self) {
    }

    proof fn not_before_is_transitive(a: Self, b: Self, c: Self) {
    }

    fn is_before(&self, other: &Self) -> (r: bool) {
        *self < *other
    }
}

/// The order of lists of texts: the first text in which two lists differ decides, and a proper
/// prefix comes first.
pub open spec fn list_less(a: Seq<Seq<char>>, b: Seq<Seq<char>>) -> bool
    decreases a.len(),
{
    if b.len() == 0 {
        false
    } else if a.len() == 0 {
        true
    } else if a[0] == b[0] {
        list_less(a.drop_first(), b.drop_first())
    } else {
        text::text_less(a[0], b[0])
    }
}

/// No list comes before itself.
pub proof fn list_order_irreflexive(a: Seq<Seq<char>>)
    ensures
        !list_less(a, a),
    decreases a.len(),
{
    if a.len() > 0 {
        list_order_irreflexive(a.drop_first());
    }
}

/// The order of lists is transitive.
pub proof fn list_order_transitive(a: Seq<Seq<char>>, b: Seq<Seq<char>>, c: Seq<Seq<char>>)
    requires
        list_less(a, b),
        list_less(b, c),
    ensures
        list_less(a, c),
    decreases a.len(),
{
    if a.len() > 0 {
        if a[0] == b[0] && b[0] == c[0] {
            list_order_transitive(a.drop_first(), b.drop_first(), c.drop_first());
        } else if a[0] != b[0] && b[0] != c[0] {
            text::text_order_transitive(a[0], b[0], c[0]);
            if a[0] == c[0] {
                text::text_order_irreflexive(a[0]);
            }
        }
    }
}

/// Of two different lists one comes before the other.
pub proof fn list_order_total(a: Seq<Seq<char>>, b: Seq<Seq<char>>)
    ensures
        a == b || list_less(a, b) || list_less(b, a),
    decreases a.len(),
{
    if a.len() == 0 && b.len() == 0 {
        assert(a =~= b);
    } else if a.len() > 0 && b.len() > 0 {
        if a[0] == b[0] {
            list_order_total(a.drop_first(), b.drop_first());
            assert(a =~= seq![a[0]] + a.drop_first());
            assert(b =~= seq![b[0]] + b.drop_first());
        } else {
            text::text_order_total(a[0], b[0]);
        }
    }
}

/// Whether one list of texts comes before another.
pub fn list_precedes(a: &Vec<String>, b: &Vec<String>) -> (r: bool)
    ensures
        r == list_less(text::texts(a@), text::texts(b@)),
{
    let ghost left = text::texts(a@);
    let ghost right = text::texts(b@);
    let mut i: usize = 0;
    assert(left.skip(0) =~= left);
    assert(right.skip(0) =~= right);
    while i < a.len() && i < b.len()
        invariant
            i <= a@.len(),
            i <= b@.len(),
            left == text::texts(a@),
            right == text::texts(b@),
            list_less(left, right) == list_less(left.skip(i as int), right.skip(i as int)),
        decreases a@.len() - i,
    {
        assert(left.skip(i as int)[0] == a@[i as int]@);
        assert(right.skip(i as int)[0] == b@[i as int]@);
        if !text_eq(a[i].as_str(), b[i].as_str()) {
            return text_precedes(a[i].as_str(), b[i].as_str());
        }
        assert(left.skip(i as int).drop_first() =~= left.skip(i + 1));
        assert(right.skip(i as int).drop_first() =~= right.skip(i + 1));
        i = i + 1;
    }
    i < b.len()
}

/// Whether each text of `s` comes before all later ones.
pub open spec fn strictly_sorted(s: Seq<Seq<char>>) -> bool {
    forall|i: int, j: int| 0 <= i < j < s.len() ==> #[trigger] text::text_less(s[i], s[j])
}

/// The list sorted, each text once.
pub fn sorted_unique(list: Vec<String>) -> (r: Vec<String>)
    ensures
        strictly_sorted(text::texts(r@)),
        text::texts(r@).to_set() == text::texts(list@).to_set(),
{
    let mut sorted = list;
    sort_by_rank(&mut sorted);
    proof {
        ranked_is_a_stable_sort(list@);
        same_texts(list@, sorted@);
    }
    let mut out: Vec<String> = Vec::new();
    let mut i: usize = 0;
    while i < sorted.len()
        invariant
            i <= sorted@.len(),
            is_ranked(sorted@),
            strictly_sorted(text::texts(out@)),
            i > 0 ==> out@.len() > 0 && text::texts(out@).last() == sorted@[i - 1]@,
            i == 0 ==> out@.len() == 0,
            text::texts(out@).to_set() == text::texts(sorted@).take(i as int).to_set(),
        decreases sorted@.len() - i,
    {
        let repeated = i > 0 && text_eq(sorted[i - 1].as_str(), sorted[i].as_str());
        let ghost was = text::texts(out@);
        let ghost x = sorted@[i as int]@;
        let ghost so_far = text::texts(sorted@).take(i as int);
        assert(text::texts(sorted@).take(i + 1) =~= so_far.push(x));
        if !repeated {
            proof {
                if i > 0 {
                    assert(!sorted@[i as int].before(sorted@[i - 1]));
                    text::text_order_total(sorted@[i - 1]@, x);
                    assert forall|k: int| 0 <= k < was.len() implies #[trigger] text::text_less(was[k], x) by {
                        if k < was.len() - 1 {
                            assert(text::text_less(was[k], was[was.len() - 1]));
                            text::text_order_transitive(was[k], was.last(), x);
                        }
                    }
                }
            }
            out.push(sorted[i].clone());
            assert(text::texts(out@) =~= was.push(x));
            assert(strictly_sorted(text::texts(out@)));
        } else {
            assert(was.contains(was.last()));
            assert(so_far.to_set().contains(x));
        }
        proof {
            push_to_set(was, x);
            push_to_set(so_far, x);
            if repeated {
                assert(so_far.to_set().insert(x) =~= so_far.to_set());
            }
        }
        i = i + 1;
    }
    assert(text::texts(sorted@).take(sorted@.len() as int) =~= text::texts(sorted@));
    out
}

/// A sequence with `x` behind it has the values of the sequence and `x`.
pub proof fn push_to_set(s: Seq<Seq<char>>, x: Seq<char>)
    ensures
        s.push(x).to_set() == s.to_set().insert(x),
{
    assert forall|y: Seq<char>| #[trigger]
        s.push(x).to_set().contains(y) == s.to_set().insert(x).contains(y) by {
        if s.contains(y) {
            let i = choose|i: int| 0 <= i < s.len() && s[i] == y;
            assert(s.push(x)[i] == y);
        }
        assert(s.push(x)[s.len() as int] == x);
        if s.push(x).contains(y) && y != x {
            let i = choose|i: int| 0 <= i < s.push(x).len() && s.push(x)[i] == y;
            assert(s[i] == y);
        }
    }
    assert(s.push(x).to_set() =~= s.to_set().insert(x));
}

/// Lists with the same strings have the same texts.
proof fn same_texts(a: Seq<String>, b: Seq<String>)
    requires
        a.to_multiset() == b.to_multiset(),
    ensures
        text::texts(a).to_set() == text::texts(b).to_set(),
{
    a.to_multiset_ensures();
    b.to_multiset_ensures();
    assert forall|t: Seq<char>| text::texts(a).to_set().contains(t) == #[trigger] text::texts(
        b,
    ).to_set().contains(t) by {
        if text::texts(a).contains(t) {
            let i = choose|i: int| 0 <= i < a.len() && text::texts(a)[i] == t;
            assert(a.contains(a[i]));
            assert(b.to_multiset().count(a[i]) > 0);
            let j = choose|j: int| 0 <= j < b.len() && b[j] == a[i];
            assert(text::texts(b)[j] == t);
        }
        if text::texts(b).contains(t) {
            let i = choose|i: int| 0 <= i < b.len() && text::texts(b)[i] == t;
            assert(b.contains(b[i]));
            assert(a.to_multiset().count(b[i]) > 0);
            let j = choose|j: int| 0 <= j < a.len() && a[j] == b[i];
            assert(text::texts(a)[j] == t);
        }
    }
    assert(text::texts(a).to_set() =~= text::texts(b).to_set());
}

} // verus!
