//! Alignments of a list of calls with a list of stops.
//!
//! A relation says which call may be at which stop. An alignment gives each call a stop, later
//! calls later stops; a partial alignment may leave calls out.

use vstd::prelude::*;

verus! {

/// Whether `at` puts each of `calls` calls at one of `stops` stops that it may be at, in order.
pub open spec fn is_alignment(
    at: Seq<int>,
    calls: int,
    stops: int,
    may: spec_fn(int, int) -> bool,
) -> bool {
    &&& at.len() == calls
    &&& forall|i: int| 0 <= i < calls ==> 0 <= #[trigger] at[i] < stops && may(i, at[i])
    &&& forall|i: int, j: int| 0 <= i < j < calls ==> #[trigger] at[i] < #[trigger] at[j]
}

/// Whether the first `calls` calls have an alignment with the first `stops` stops.
pub open spec fn alignable(calls: int, stops: int, may: spec_fn(int, int) -> bool) -> bool {
    exists|at: Seq<int>| is_alignment(at, calls, stops, may)
}

/// No calls are aligned with anything.
pub proof fn nothing_is_alignable(stops: int, may: spec_fn(int, int) -> bool)
    ensures
        alignable(0, stops, may),
{
    assert(is_alignment(seq![], 0, stops, may));
}

/// The calls have an alignment with one stop more exactly if they have one without it, or the last
/// call may be at that stop and the others have one without it.
pub proof fn alignable_step(calls: int, stops: int, may: spec_fn(int, int) -> bool)
    requires
        calls > 0,
        stops > 0,
    ensures
        alignable(calls, stops, may) <==> alignable(calls, stops - 1, may) || (alignable(
            calls - 1,
            stops - 1,
            may,
        ) && may(calls - 1, stops - 1)),
{
    if alignable(calls, stops, may) {
        let at = choose|at: Seq<int>| is_alignment(at, calls, stops, may);
        let last = at[calls - 1];
        if last < stops - 1 {
            assert forall|i: int| 0 <= i < calls implies 0 <= #[trigger] at[i] < stops - 1 by {
                if i < calls - 1 {
                    assert(at[i] < at[calls - 1]);
                }
            }
            assert(is_alignment(at, calls, stops - 1, may));
        } else {
            let front = at.drop_last();
            assert forall|i: int| 0 <= i < calls - 1 implies 0 <= #[trigger] front[i] < stops - 1
                && may(i, front[i]) by {
                assert(at[i] < at[calls - 1]);
                assert(front[i] == at[i]);
            }
            assert(is_alignment(front, calls - 1, stops - 1, may));
        }
    }
    if alignable(calls, stops - 1, may) {
        let fewer_stops = stops - 1;
        let at = choose|at: Seq<int>| is_alignment(at, calls, fewer_stops, may);
        assert(is_alignment(at, calls, stops, may));
    }
    if alignable(calls - 1, stops - 1, may) && may(calls - 1, stops - 1) {
        let fewer_calls = calls - 1;
        let fewer_stops = stops - 1;
        let front = choose|at: Seq<int>| is_alignment(at, fewer_calls, fewer_stops, may);
        let at = front.push(stops - 1);
        assert forall|i: int| 0 <= i < calls implies 0 <= #[trigger] at[i] < stops && may(
            i,
            at[i],
        ) by {
            if i < calls - 1 {
                assert(at[i] == front[i]);
            }
        }
        assert forall|i: int, j: int| 0 <= i < j < calls implies #[trigger] at[i]
            < #[trigger] at[j] by {
            if j < calls - 1 {
                assert(front[i] < front[j]);
            } else {
                assert(front[i] < stops - 1);
            }
        }
        assert(is_alignment(at, calls, stops, may));
    }
}

/// More calls than stops have no alignment.
pub proof fn alignable_needs_stops(calls: int, stops: int, may: spec_fn(int, int) -> bool)
    requires
        alignable(calls, stops, may),
        calls >= 0,
        stops >= 0,
    ensures
        calls <= stops,
    decreases stops,
{
    if calls > 0 {
        if stops == 0 {
            let at = choose|at: Seq<int>| is_alignment(at, calls, stops, may);
            assert(0 <= at[0] < stops);
        } else {
            alignable_step(calls, stops, may);
            if alignable(calls, stops - 1, may) {
                alignable_needs_stops(calls, stops - 1, may);
            } else {
                alignable_needs_stops(calls - 1, stops - 1, may);
            }
        }
    }
}

/// What has an alignment has one with fewer calls and more stops.
pub proof fn alignable_is_monotone(
    calls: int,
    fewer: int,
    stops: int,
    more: int,
    may: spec_fn(int, int) -> bool,
)
    requires
        alignable(calls, stops, may),
        0 <= fewer <= calls,
        stops <= more,
    ensures
        alignable(fewer, more, may),
{
    let at = choose|at: Seq<int>| is_alignment(at, calls, stops, may);
    let front = at.take(fewer);
    assert forall|i: int| 0 <= i < fewer implies 0 <= #[trigger] front[i] < more && may(
        i,
        front[i],
    ) by {
        assert(front[i] == at[i]);
    }
    assert(is_alignment(front, fewer, more, may));
}

/// The length of the longest partial alignment of the first `calls` calls with the first `stops`
/// stops.
pub open spec fn longest(calls: int, stops: int, may: spec_fn(int, int) -> bool) -> int
    decreases calls + stops,
{
    if calls <= 0 || stops <= 0 {
        0
    } else if may(calls - 1, stops - 1) {
        longest(calls - 1, stops - 1, may) + 1
    } else if longest(calls - 1, stops, may) >= longest(calls, stops - 1, may) {
        longest(calls - 1, stops, may)
    } else {
        longest(calls, stops - 1, may)
    }
}

/// The longest partial alignment in which, from the end, a call is put at a stop as soon as it may
/// be there, and a call is left out rather than a stop where both do as well.
pub open spec fn longest_alignment(
    calls: int,
    stops: int,
    may: spec_fn(int, int) -> bool,
) -> Seq<Option<usize>>
    decreases calls + stops,
{
    if calls <= 0 {
        seq![]
    } else if stops <= 0 {
        Seq::new(calls as nat, |i: int| None)
    } else if may(calls - 1, stops - 1) {
        longest_alignment(calls - 1, stops - 1, may).push(Some((stops - 1) as usize))
    } else if longest(calls - 1, stops, may) >= longest(calls, stops - 1, may) {
        longest_alignment(calls - 1, stops, may).push(None)
    } else {
        longest_alignment(calls, stops - 1, may)
    }
}

/// Whether `at` puts some of its calls at stops that they may be at, in order.
pub open spec fn is_partial_alignment(
    at: Seq<Option<usize>>,
    stops: int,
    may: spec_fn(int, int) -> bool,
) -> bool {
    &&& forall|i: int|
        0 <= i < at.len() && #[trigger] at[i] is Some ==> at[i]->0 < stops && may(i, at[i]->0 as int)
    &&& forall|i: int, j: int|
        0 <= i < j < at.len() && #[trigger] at[i] is Some && #[trigger] at[j] is Some ==> at[i]->0
            < at[j]->0
}

/// How many calls a partial alignment puts somewhere.
pub open spec fn matched(at: Seq<Option<usize>>) -> int
    decreases at.len(),
{
    if at.len() == 0 {
        0
    } else {
        matched(at.drop_last()) + (if at.last() is Some {
            1int
        } else {
            0
        })
    }
}

/// The first call that a partial alignment leaves out.
pub open spec fn first_left_out(at: Seq<Option<usize>>) -> Option<usize>
    decreases at.len(),
{
    if at.len() == 0 {
        None
    } else {
        match first_left_out(at.drop_last()) {
            Some(i) => Some(i),
            None => if at.last() is None {
                Some((at.len() - 1) as usize)
            } else {
                None
            },
        }
    }
}

/// The length grows by at most one with a call or with a stop, and never falls.
pub proof fn longest_grows_slowly(calls: int, stops: int, may: spec_fn(int, int) -> bool)
    requires
        calls >= 0,
        stops >= 0,
    ensures
        0 <= longest(calls, stops, may) <= calls,
        longest(calls, stops, may) <= stops,
        calls > 0 ==> longest(calls - 1, stops, may) <= longest(calls, stops, may) <= longest(
            calls - 1,
            stops,
            may,
        ) + 1,
        stops > 0 ==> longest(calls, stops - 1, may) <= longest(calls, stops, may) <= longest(
            calls,
            stops - 1,
            may,
        ) + 1,
    decreases calls + stops,
{
    if calls > 0 && stops > 0 {
        longest_grows_slowly(calls - 1, stops - 1, may);
        longest_grows_slowly(calls - 1, stops, may);
        longest_grows_slowly(calls, stops - 1, may);
    } else if calls > 0 {
        longest_grows_slowly(calls - 1, stops, may);
    } else if stops > 0 {
        longest_grows_slowly(calls, stops - 1, may);
    }
}

proof fn longest_is_monotone(calls: int, stops: int, more: int, may: spec_fn(int, int) -> bool)
    requires
        0 <= calls,
        0 <= stops <= more,
    ensures
        longest(calls, stops, may) <= longest(calls, more, may),
    decreases more,
{
    if stops < more {
        longest_is_monotone(calls, stops, more - 1, may);
        longest_grows_slowly(calls, more, may);
    }
}

/// The law of `longest`: no partial alignment puts more calls anywhere.
pub proof fn longest_is_an_upper_bound(
    at: Seq<Option<usize>>,
    stops: int,
    may: spec_fn(int, int) -> bool,
)
    requires
        is_partial_alignment(at, stops, may),
        stops >= 0,
    ensures
        matched(at) <= longest(at.len() as int, stops, may),
    decreases at.len(),
{
    if at.len() > 0 {
        let front = at.drop_last();
        let calls = at.len() as int;
        assert forall|i: int| 0 <= i < front.len() && #[trigger] front[i] is Some implies may(
            i,
            front[i]->0 as int,
        ) && front[i]->0 < stops by {
            assert(front[i] == at[i]);
        }
        assert forall|i: int, j: int|
            0 <= i < j < front.len() && #[trigger] front[i] is Some && #[trigger] front[
                j
            ] is Some implies front[i]->0 < front[j]->0 by {
            assert(front[i] == at[i] && front[j] == at[j]);
        }
        match at.last() {
            None => {
                longest_is_an_upper_bound(front, stops, may);
                longest_grows_slowly(calls, stops, may);
            },
            Some(last) => {
                let here = last as int;
                assert(at[calls - 1] is Some);
                assert forall|i: int| 0 <= i < front.len() && #[trigger] front[i] is Some implies may(
                    i,
                    front[i]->0 as int,
                ) && front[i]->0 < here by {
                    assert(at[i] is Some);
                }
                assert(is_partial_alignment(front, here, may));
                longest_is_an_upper_bound(front, here, may);
                assert(longest(calls, here + 1, may) == longest(calls - 1, here, may) + 1);
                longest_is_monotone(calls, here + 1, stops, may);
            },
        }
    }
}

/// The law of `longest_alignment`: it is a partial alignment of the greatest length.
pub proof fn longest_alignment_is_longest(calls: int, stops: int, may: spec_fn(int, int) -> bool)
    requires
        calls >= 0,
        0 <= stops <= usize::MAX,
    ensures
        longest_alignment(calls, stops, may).len() == calls,
        is_partial_alignment(longest_alignment(calls, stops, may), stops, may),
        matched(longest_alignment(calls, stops, may)) == longest(calls, stops, may),
    decreases calls + stops,
{
    let at = longest_alignment(calls, stops, may);
    if calls > 0 {
        if stops == 0 {
            longest_alignment_is_longest(calls - 1, 0, may);
            let front = longest_alignment(calls - 1, 0, may);
            assert(at.drop_last() =~= front);
        } else if may(calls - 1, stops - 1) {
            longest_alignment_is_longest(calls - 1, stops - 1, may);
            let front = longest_alignment(calls - 1, stops - 1, may);
            assert(at.drop_last() =~= front);
            assert forall|i: int| 0 <= i < at.len() && #[trigger] at[i] is Some implies at[i]->0
                < stops && may(i, at[i]->0 as int) by {
                if i < front.len() {
                    assert(at[i] == front[i]);
                }
            }
            assert forall|i: int, j: int|
                0 <= i < j < at.len() && #[trigger] at[i] is Some && #[trigger] at[
                    j
                ] is Some implies at[i]->0 < at[j]->0 by {
                assert(at[i] == front[i]);
                if j < front.len() {
                    assert(at[j] == front[j]);
                }
            }
        } else if longest(calls - 1, stops, may) >= longest(calls, stops - 1, may) {
            longest_alignment_is_longest(calls - 1, stops, may);
            let front = longest_alignment(calls - 1, stops, may);
            assert(at.drop_last() =~= front);
            assert forall|i: int| 0 <= i < at.len() && #[trigger] at[i] is Some implies at[i]->0
                < stops && may(i, at[i]->0 as int) by {
                assert(at[i] == front[i]);
            }
            assert forall|i: int, j: int|
                0 <= i < j < at.len() && #[trigger] at[i] is Some && #[trigger] at[
                    j
                ] is Some implies at[i]->0 < at[j]->0 by {
                assert(at[i] == front[i] && at[j] == front[j]);
            }
        } else {
            longest_alignment_is_longest(calls, stops - 1, may);
        }
    }
}

/// The law that joins both: all calls have an alignment exactly if a partial one leaves none out.
pub proof fn full_alignment_is_longest(calls: int, stops: int, may: spec_fn(int, int) -> bool)
    requires
        0 <= calls,
        0 <= stops,
    ensures
        alignable(calls, stops, may) <==> longest(calls, stops, may) == calls,
    decreases calls + stops,
{
    longest_grows_slowly(calls, stops, may);
    if calls == 0 {
        nothing_is_alignable(stops, may);
    } else if stops == 0 {
        if alignable(calls, stops, may) {
            alignable_needs_stops(calls, stops, may);
        }
    } else {
        alignable_step(calls, stops, may);
        full_alignment_is_longest(calls, stops - 1, may);
        full_alignment_is_longest(calls - 1, stops - 1, may);
        longest_grows_slowly(calls - 1, stops, may);
        longest_grows_slowly(calls, stops - 1, may);
        longest_grows_slowly(calls - 1, stops - 1, may);
        if may(calls - 1, stops - 1) && alignable(calls, stops - 1, may) {
            alignable_is_monotone(calls, calls, stops - 1, stops, may);
        }
    }
}

} // verus!
