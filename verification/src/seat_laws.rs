//! What holds of the stops at which a tolerant match puts calls, and of the first among equals.

use crate::adaptive_matching::{
    self,
    AdaptiveScore,
    Placing,
    Rating,
    ResolvedCall,
    Search,
    Sighting,
    Spot,
    Terms,
};
use crate::alignment;
use crate::gtfs::{Gtfs, Trip};
use crate::matching_diagnostics::{self, PartialAlignmentSummary};
use crate::siri_models::EstimatedCall;
use crate::tolerant_laws;
use vstd::prelude::*;

verus! {

/// Whether sightings are of different calls, in order, of so many.
pub open spec fn are_in_order(seen: Seq<Sighting>, count: int) -> bool {
    &&& forall|k: int| 0 <= k < seen.len() ==> 0 <= (#[trigger] seen[k]).index < count
    &&& forall|k: int, l: int|
        0 <= k < l < seen.len() ==> (#[trigger] seen[k]).index < (#[trigger] seen[l]).index
}

/// The law of sightings: those of a journey are of different calls, in order.
pub proof fn sightings_are_in_order(
    calls: Seq<EstimatedCall>,
    by_suffix: Map<Seq<char>, Vec<String>>,
)
    ensures
        are_in_order(adaptive_matching::sightings_of(calls, by_suffix), calls.len() as int),
    decreases calls.len(),
{
    if calls.len() > 0 {
        let rest = calls.drop_last();
        sightings_are_in_order(rest, by_suffix);
        let before = adaptive_matching::sightings_of(rest, by_suffix);
        let all = adaptive_matching::sightings_of(calls, by_suffix);
        assert forall|k: int| 0 <= k < before.len() implies #[trigger] all[k] == before[k] by {}
        assert forall|k: int| 0 <= k < all.len() implies 0 <= (#[trigger] all[k]).index
            < calls.len() by {
            if k < before.len() {
                assert(before[k].index < rest.len());
            }
        }
        assert forall|k: int, l: int| 0 <= k < l < all.len() implies (#[trigger] all[k]).index < (
        #[trigger] all[l]).index by {
            if l < before.len() {
                assert(before[k].index < before[l].index);
            } else {
                assert(before[k].index < rest.len());
            }
        }
    }
}

/// Whether seats are those of the first `n` sightings: a call that is put at a stop has that stop
/// as its seat, and all other calls have none.
pub open spec fn are_seats(
    at: Seq<usize>,
    seen: Seq<Sighting>,
    spots: Seq<Option<Spot>>,
    count: int,
    n: int,
) -> bool {
    &&& at.len() == count
    &&& forall|k: int|
        0 <= k < n && #[trigger] spots[k] is Some ==> at[seen[k].index] == spots[k]->0.stop
    &&& forall|i: int|
        0 <= i < count && (forall|k: int|
            0 <= k < n && #[trigger] spots[k] is Some ==> seen[k].index != i) ==> #[trigger] at[i]
            == usize::MAX
}

proof fn seats_are_taken(
    seen: Seq<Sighting>,
    spots: Seq<Option<Spot>>,
    count: int,
    n: int,
)
    requires
        count >= 0,
        are_in_order(seen, count),
        0 <= n <= spots.len() <= seen.len(),
    ensures
        are_seats(
            adaptive_matching::seats_of(seen, spots.take(n), count),
            seen,
            spots,
            count,
            n,
        ),
    decreases n,
{
    let at = adaptive_matching::seats_of(seen, spots.take(n), count);
    if n > 0 {
        seats_are_taken(seen, spots, count, n - 1);
        let part = spots.take(n);
        assert(part.drop_last() =~= spots.take(n - 1));
        assert(part.last() == spots[n - 1]);
        let before = adaptive_matching::seats_of(seen, spots.take(n - 1), count);
        assert forall|k: int| 0 <= k < n && #[trigger] spots[k] is Some implies at[seen[k].index]
            == spots[k]->0.stop by {
            if k < n - 1 {
                assert(seen[k].index < seen[n - 1].index);
            }
        }
        assert forall|i: int|
            0 <= i < count && (forall|k: int|
                0 <= k < n && #[trigger] spots[k] is Some ==> seen[k].index != i) implies
            #[trigger] at[i] == usize::MAX by {
            assert(forall|k: int|
                0 <= k < n - 1 && #[trigger] spots[k] is Some ==> seen[k].index != i);
            assert(before[i] == usize::MAX);
            if spots[n - 1] is Some {
                assert(seen[n - 1].index != i);
            }
        }
    }
}

/// The law of seats: a tolerant rating gives each call that it puts at a stop that stop, and gives
/// no stop to any other call.
pub proof fn rated_calls_have_their_seats(
    trip: Trip,
    seen: Seq<Sighting>,
    terms: Terms,
    count: int,
)
    requires
        count >= 0,
        are_in_order(seen, count),
    ensures
        adaptive_matching::unordered_rating(trip, seen, terms, count) matches Some(found)
            ==> are_seats(
            found.at,
            seen,
            Seq::new(
                seen.len(),
                |k: int| adaptive_matching::spot_of(seen[k], trip.stop_times@, terms),
            ),
            count,
            seen.len() as int,
        ),
        adaptive_matching::trajectory_rating(trip, seen, terms, count) matches Some(found)
            ==> are_seats(
            found.at,
            seen,
            Seq::new(
                seen.len(),
                |k: int| adaptive_matching::spot_of(seen[k], trip.stop_times@, terms),
            ),
            count,
            seen.len() as int,
        ),
{
    let spots = adaptive_matching::spots_of(seen, trip.stop_times@, terms);
    seats_are_taken(seen, spots, count, seen.len() as int);
    assert(spots.take(seen.len() as int) =~= spots);
    assert(spots =~= Seq::new(
        seen.len(),
        |k: int| adaptive_matching::spot_of(seen[k], trip.stop_times@, terms),
    ));
}

/// The law of the best rating: of several that are as good, the first is taken.
pub proof fn best_rating_is_the_first(all: Seq<Option<Rating>>)
    ensures
        adaptive_matching::top_rating(all) matches Some(top) ==> exists|at: int|
            {
                &&& 0 <= at < all.len()
                &&& #[trigger] all[at] == Some(top)
                &&& forall|i: int|
                    0 <= i < at && #[trigger] all[i] is Some ==> tolerant_laws::is_worse(
                        all[i]->0,
                        top,
                    )
                &&& forall|i: int|
                    0 <= i < all.len() && #[trigger] all[i] is Some ==> !tolerant_laws::is_worse(
                        top,
                        all[i]->0,
                    )
            },
        adaptive_matching::top_rating(all) is None <==> forall|i: int|
            0 <= i < all.len() ==> #[trigger] all[i] is None,
    decreases all.len(),
{
    if all.len() > 0 {
        let rest = all.drop_last();
        let n = rest.len() as int;
        best_rating_is_the_first(rest);
        assert forall|i: int| 0 <= i < n implies #[trigger] all[i] == rest[i] by {}
        assert(all[n] == all.last());
        let top = adaptive_matching::top_rating(all);
        if let Some(old) = adaptive_matching::top_rating(rest) {
            let at = choose|at: int|
                {
                    &&& 0 <= at < rest.len()
                    &&& #[trigger] rest[at] == Some(old)
                    &&& forall|i: int|
                        0 <= i < at && #[trigger] rest[i] is Some ==> tolerant_laws::is_worse(
                            rest[i]->0,
                            old,
                        )
                    &&& forall|i: int|
                        0 <= i < rest.len() && #[trigger] rest[i] is Some
                            ==> !tolerant_laws::is_worse(old, rest[i]->0)
                };
            if top == Some(old) {
                assert(all[at] == Some(old));
                assert forall|i: int|
                    0 <= i < all.len() && #[trigger] all[i] is Some implies
                    !tolerant_laws::is_worse(old, all[i]->0) by {
                    if i < n {
                        assert(rest[i] == all[i]);
                    }
                }
                assert forall|i: int| 0 <= i < at && #[trigger] all[i] is Some implies
                    tolerant_laws::is_worse(all[i]->0, old) by {
                    assert(rest[i] == all[i]);
                }
            } else {
                assert(all[n] == top);
                assert forall|i: int|
                    0 <= i < n && #[trigger] all[i] is Some implies tolerant_laws::is_worse(
                    all[i]->0,
                    top->0,
                ) by {
                    assert(!tolerant_laws::is_worse(old, rest[i]->0));
                }
            }
        } else {
            if all[n] is Some {
                assert(all[n] == top);
                assert forall|i: int| 0 <= i < n implies #[trigger] all[i] is None by {
                    assert(rest[i] is None);
                }
            } else {
                assert forall|i: int| 0 <= i < all.len() implies #[trigger] all[i] is None by {
                    if i < n {
                        assert(rest[i] is None);
                    }
                }
            }
        }
        if top is Some {
            assert(exists|i: int| 0 <= i < all.len() && #[trigger] all[i] is Some);
        }
    }
}

/// The law of the order of ratings: they stand in the order of the trips, and those of one trip in
/// the order of the days, the latest first.
pub proof fn ratings_stand_in_order(
    schedule: Gtfs,
    search: Search,
    ids: Seq<Seq<char>>,
    id: Seq<char>,
    route: Seq<char>,
    to: Seq<Seq<char>>,
    mode: adaptive_matching::DestinationMode,
)
    ensures
        ({
            let before = adaptive_matching::ratings_of(schedule, search, ids, route, to, mode);
            let after = adaptive_matching::ratings_of(
                schedule,
                search,
                ids.push(id),
                route,
                to,
                mode,
            );
            &&& after.take(before.len() as int) == before
            &&& after.len() == before.len() || after.len() == before.len() + search.days.len()
            &&& forall|i: int|
                before.len() <= i < after.len() ==> (#[trigger] after[i] matches Some(rating)
                    ==> rating.day == search.days[i - before.len()] && rating.trip_id
                    == schedule.trips@[id].id@)
        }),
{
    assert(ids.push(id).drop_last() =~= ids);
    let before = adaptive_matching::ratings_of(schedule, search, ids, route, to, mode);
    let after = adaptive_matching::ratings_of(schedule, search, ids.push(id), route, to, mode);
    assert(after.take(before.len() as int) =~= before);
}

/// The law of the best partial alignment: of several that are as good, the first is taken.
pub proof fn best_summary_is_the_first(all: Seq<PartialAlignmentSummary>, calls: int)
    requires
        all.len() > 0,
    ensures
        exists|at: int|
            {
                &&& 0 <= at < all.len()
                &&& #[trigger] all[at] == matching_diagnostics::best_of(all, calls)
                &&& forall|i: int|
                    0 <= i < at ==> matching_diagnostics::beats(
                        matching_diagnostics::best_of(all, calls),
                        #[trigger] all[i],
                        calls,
                    )
            },
    decreases all.len(),
{
    let best = matching_diagnostics::best_of(all, calls);
    let rest = all.drop_last();
    let n = rest.len() as int;
    assert(all[n] == all.last());
    if n > 0 {
        best_summary_is_the_first(rest, calls);
        matching_diagnostics::best_is_not_beaten(rest, calls);
        let old = matching_diagnostics::best_of(rest, calls);
        let at = choose|at: int|
            {
                &&& 0 <= at < rest.len()
                &&& #[trigger] rest[at] == old
                &&& forall|i: int|
                    0 <= i < at ==> matching_diagnostics::beats(old, #[trigger] rest[i], calls)
            };
        if matching_diagnostics::beats(all.last(), old, calls) {
            assert forall|i: int| 0 <= i < n implies matching_diagnostics::beats(
                best,
                #[trigger] all[i],
                calls,
            ) by {
                assert(all[i] == rest[i]);
                assert(!matching_diagnostics::beats(rest[i], old, calls));
            }
            assert(all[n] == best);
        } else {
            assert(all[at] == rest[at]);
            assert forall|i: int| 0 <= i < at implies matching_diagnostics::beats(
                best,
                #[trigger] all[i],
                calls,
            ) by {
                assert(all[i] == rest[i]);
            }
        }
    } else {
        assert(all[0] == best);
    }
}

/// The law of partial alignments: a call that may be at the last stop is put there; one that may
/// not is left out if as many follow without it; else no call is at the last stop.
pub proof fn last_calls_are_put_at_last_stops(
    calls: int,
    places: int,
    may: spec_fn(int, int) -> bool,
)
    requires
        calls > 0,
        0 < places <= usize::MAX,
    ensures
        ({
            let at = alignment::longest_alignment(calls, places, may);
            let fewer = alignment::matched(
                alignment::longest_alignment(calls - 1, places, may),
            );
            &&& at.len() == calls
            &&& may(calls - 1, places - 1) ==> at.last() == Some((places - 1) as usize)
            &&& !may(calls - 1, places - 1) && fewer == alignment::matched(at) ==> at.last() is None
            &&& !may(calls - 1, places - 1) && fewer < alignment::matched(at) ==> forall|i: int|
                0 <= i < calls && #[trigger] at[i] is Some ==> at[i]->0 < places - 1
        }),
{
    alignment::longest_alignment_is_longest(calls, places, may);
    alignment::longest_alignment_is_longest(calls - 1, places, may);
    alignment::longest_alignment_is_longest(calls, places - 1, may);
    alignment::longest_grows_slowly(calls, places, may);
}

/// The law of the views: what is said of a sighting, of a placing and of a score is what they hold.
pub proof fn scores_hold_what_is_said(call: ResolvedCall, placing: Placing, score: AdaptiveScore)
    ensures
        call@.index == call.original_index,
        call@.moment == call.observed,
        call@.aliases.len() == call.aliases@.len(),
        forall|i: int|
            0 <= i < call@.aliases.len() ==> #[trigger] call@.aliases[i] == call.aliases@[i]@,
        placing@.stop == placing.stop,
        placing@.delay == placing.delay,
        placing@.by_station == placing.by_station,
        score@.trip_id == score.trip_id@,
        score@.day == score.service_date,
        score@.matched == score.matched_calls,
        score@.total == score.total_difference,
        score@.mean == score.mean_difference,
        score@.most == score.max_difference,
        score@.at == score.stop_indices@,
        score@.by_station == score.used_parent_station_match,
{
}

} // verus!
