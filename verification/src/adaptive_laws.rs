//! What holds of the tolerant match, whatever the order of the calls.

use crate::adaptive_matching::{self, DestinationMode, Rating, Search, Sighting, Spot, Terms, NO_STOP};
use crate::clock;
use crate::gtfs::{Gtfs, StopTime, Trip};
use crate::matching::{self, Match};
use crate::order;
use crate::permutations;
use crate::siri_models::{EstimatedCall, Journey};
use vstd::prelude::*;

verus! {

/// Where a call is put, if its stop is known and it has a time.
spec fn spot_for(
    call: EstimatedCall,
    by_suffix: Map<Seq<char>, Vec<String>>,
    stop_times: Seq<StopTime>,
    terms: Terms,
) -> Option<Spot> {
    match adaptive_matching::sighting_of(0, call, by_suffix) {
        Some(sighting) => adaptive_matching::spot_of(sighting, stop_times, terms),
        None => None,
    }
}

/// The moment of a call, if its stop is known and it has a time.
spec fn moment_for(by_suffix: Map<Seq<char>, Vec<String>>) -> spec_fn(EstimatedCall) -> Option<
    i64,
> {
    |call: EstimatedCall|
        match adaptive_matching::sighting_of(0, call, by_suffix) {
            Some(sighting) => Some(sighting.moment),
            None => None,
        }
}

/// How late a call is where it is put.
spec fn delay_for(
    by_suffix: Map<Seq<char>, Vec<String>>,
    stop_times: Seq<StopTime>,
    terms: Terms,
) -> spec_fn(EstimatedCall) -> Option<i64> {
    |call: EstimatedCall|
        match spot_for(call, by_suffix, stop_times, terms) {
            Some(spot) => Some(spot.delay as i64),
            None => None,
        }
}

/// Whether a call is where it is put for the station alone.
spec fn station_for(
    by_suffix: Map<Seq<char>, Vec<String>>,
    stop_times: Seq<StopTime>,
    terms: Terms,
) -> spec_fn(EstimatedCall) -> Option<bool> {
    |call: EstimatedCall|
        match spot_for(call, by_suffix, stop_times, terms) {
            Some(spot) => Some(spot.by_station),
            None => None,
        }
}

/// The seat of a call.
spec fn seat_for(
    call: EstimatedCall,
    by_suffix: Map<Seq<char>, Vec<String>>,
    stop_times: Seq<StopTime>,
    terms: Terms,
) -> usize {
    match spot_for(call, by_suffix, stop_times, terms) {
        Some(spot) => spot.stop,
        None => NO_STOP,
    }
}

/// Which call of the journey a call is does not bear on where it is put.
proof fn index_is_idle(a: Sighting, b: Sighting, stop_times: Seq<StopTime>, terms: Terms)
    requires
        a.aliases == b.aliases,
        a.moment == b.moment,
    ensures
        adaptive_matching::spot_of(a, stop_times, terms) == adaptive_matching::spot_of(
            b,
            stop_times,
            terms,
        ),
    decreases stop_times.len(),
{
    if stop_times.len() > 0 {
        index_is_idle(a, b, stop_times.drop_last(), terms);
    }
}

proof fn seats_of_first(
    a: Seq<Sighting>,
    b: Seq<Sighting>,
    spots: Seq<Option<Spot>>,
    count: int,
)
    requires
        spots.len() <= a.len(),
        spots.len() <= b.len(),
        forall|k: int| 0 <= k < spots.len() ==> #[trigger] a[k] == b[k],
    ensures
        adaptive_matching::seats_of(a, spots, count) == adaptive_matching::seats_of(
            b,
            spots,
            count,
        ),
    decreases spots.len(),
{
    if spots.len() > 0 {
        seats_of_first(a, b, spots.drop_last(), count);
        assert(a[spots.len() - 1] == b[spots.len() - 1]);
    }
}

/// What the sightings of the calls come to is what each call comes to by itself.
proof fn each_call_by_itself(
    calls: Seq<EstimatedCall>,
    by_suffix: Map<Seq<char>, Vec<String>>,
    stop_times: Seq<StopTime>,
    terms: Terms,
    count: int,
)
    requires
        calls.len() <= count,
    ensures
        ({
            let seen = adaptive_matching::sightings_of(calls, by_suffix);
            let spots = adaptive_matching::spots_of(seen, stop_times, terms);
            let moments = permutations::given(calls, moment_for(by_suffix));
            let stations = permutations::given(calls, station_for(by_suffix, stop_times, terms));
            let seats = adaptive_matching::seats_of(seen, spots, count);
            &&& seen.len() == moments.len()
            &&& forall|k: int| 0 <= k < seen.len() ==> (#[trigger] seen[k]).moment == moments[k]
            &&& adaptive_matching::delays_of(spots) == permutations::given(
                calls,
                delay_for(by_suffix, stop_times, terms),
            )
            &&& adaptive_matching::one_by_station(spots) <==> stations.contains(true)
            &&& seats.len() == count
            &&& forall|i: int|
                0 <= i < count ==> #[trigger] seats[i] == (if i < calls.len() {
                    seat_for(calls[i], by_suffix, stop_times, terms)
                } else {
                    NO_STOP
                })
        }),
    decreases calls.len(),
{
    let seen = adaptive_matching::sightings_of(calls, by_suffix);
    let spots = adaptive_matching::spots_of(seen, stop_times, terms);
    if calls.len() == 0 {
        assert(spots =~= seq![]);
    } else {
        let rest = calls.drop_last();
        let last = calls.last();
        let front = adaptive_matching::sightings_of(rest, by_suffix);
        let before = adaptive_matching::spots_of(front, stop_times, terms);
        let stations = permutations::given(calls, station_for(by_suffix, stop_times, terms));
        let earlier = permutations::given(rest, station_for(by_suffix, stop_times, terms));
        each_call_by_itself(rest, by_suffix, stop_times, terms, count);
        match adaptive_matching::sighting_of(calls.len() - 1, last, by_suffix) {
            Some(sighting) => {
                let first = adaptive_matching::sighting_of(0, last, by_suffix)->0;
                index_is_idle(sighting, first, stop_times, terms);
                let spot = adaptive_matching::spot_of(sighting, stop_times, terms);
                assert(spots =~= before.push(spot));
                assert(spots.drop_last() =~= before);
                seats_of_first(seen, front, before, count);
                assert(spots[spots.len() - 1] == spot);
                assert forall|k: int| 0 <= k < before.len() implies spots[k] == before[k] by {}
                if spot is Some {
                    assert(stations =~= earlier.push(spot->0.by_station));
                    assert(stations[stations.len() - 1] == spot->0.by_station);
                    if earlier.contains(true) {
                        let k = choose|k: int| 0 <= k < earlier.len() && earlier[k];
                        assert(stations[k]);
                    }
                }
                if adaptive_matching::one_by_station(before) {
                    let k = choose|k: int|
                        0 <= k < before.len() && #[trigger] before[k] is Some
                            && before[k]->0.by_station;
                    assert(spots[k] is Some && spots[k]->0.by_station);
                }
            },
            None => {
                assert(seen =~= front);
            },
        }
    }
}

/// The law of the first moment: it is that of a sighting, and none is earlier.
pub proof fn first_moment_is_least(seen: Seq<Sighting>)
    ensures
        adaptive_matching::first_moment(seen) is Some <==> seen.len() > 0,
        adaptive_matching::first_moment(seen) matches Some(t) ==> {
            &&& exists|k: int| 0 <= k < seen.len() && (#[trigger] seen[k]).moment == t
            &&& forall|k: int| 0 <= k < seen.len() ==> t <= (#[trigger] seen[k]).moment
        },
    decreases seen.len(),
{
    if seen.len() > 0 {
        let front = seen.drop_last();
        first_moment_is_least(front);
        assert(seen[seen.len() - 1] == seen.last());
        assert forall|k: int| 0 <= k < front.len() implies seen[k] == front[k] by {}
        if let Some(t) = adaptive_matching::first_moment(front) {
            let k = choose|k: int| 0 <= k < front.len() && (#[trigger] front[k]).moment == t;
            assert(seen[k].moment == t);
        }
    }
}

proof fn total_without(s: Seq<i64>, k: int)
    requires
        0 <= k < s.len(),
    ensures
        adaptive_matching::total_of(s) == adaptive_matching::total_of(s.remove(k)) + clock::gap(
            s[k] as int,
            0,
        ),
    decreases s.len(),
{
    let rest = s.remove(k);
    if k == s.len() - 1 {
        assert(rest =~= s.drop_last());
    } else {
        total_without(s.drop_last(), k);
        assert(rest.drop_last() =~= s.drop_last().remove(k));
        assert(rest.last() == s.last());
    }
}

proof fn total_is_the_same(s: Seq<i64>, t: Seq<i64>)
    requires
        s.to_multiset() == t.to_multiset(),
    ensures
        adaptive_matching::total_of(s) == adaptive_matching::total_of(t),
    decreases s.len(),
{
    permutations::same_values(s, t);
    if s.len() > 0 {
        let k = permutations::last_stands_in(s, t);
        total_is_the_same(s.drop_last(), t.remove(k));
        total_without(t, k);
    }
}

/// The law of the greatest delay: it is that of one of the delays, and none is greater.
pub proof fn most_is_greatest(s: Seq<i64>)
    ensures
        0 <= adaptive_matching::most_of(s),
        forall|k: int|
            0 <= k < s.len() ==> clock::gap(#[trigger] s[k] as int, 0)
                <= adaptive_matching::most_of(s),
        s.len() > 0 ==> exists|k: int|
            0 <= k < s.len() && clock::gap(#[trigger] s[k] as int, 0) == adaptive_matching::most_of(
                s,
            ),
    decreases s.len(),
{
    if s.len() > 0 {
        let front = s.drop_last();
        most_is_greatest(front);
        assert(s[s.len() - 1] == s.last());
        assert forall|k: int| 0 <= k < front.len() implies s[k] == front[k] by {}
        if front.len() > 0 {
            let k = choose|k: int|
                0 <= k < front.len() && clock::gap(#[trigger] front[k] as int, 0)
                    == adaptive_matching::most_of(front);
            assert(clock::gap(s[k] as int, 0) == adaptive_matching::most_of(front));
        }
    }
}

proof fn most_is_the_same(s: Seq<i64>, t: Seq<i64>)
    requires
        s.to_multiset() == t.to_multiset(),
    ensures
        adaptive_matching::most_of(s) == adaptive_matching::most_of(t),
{
    permutations::same_values(s, t);
    most_is_greatest(s);
    most_is_greatest(t);
    if s.len() > 0 {
        let i = choose|k: int|
            0 <= k < s.len() && clock::gap(#[trigger] s[k] as int, 0)
                == adaptive_matching::most_of(s);
        let j = choose|k: int|
            0 <= k < t.len() && clock::gap(#[trigger] t[k] as int, 0)
                == adaptive_matching::most_of(t);
        assert(s.contains(s[i]) && t.contains(t[j]));
        assert(t.contains(s[i]) && s.contains(t[j]));
    }
}

proof fn median_is_the_same(s: Seq<i64>, t: Seq<i64>)
    requires
        s.to_multiset() == t.to_multiset(),
    ensures
        adaptive_matching::median_of(s) == adaptive_matching::median_of(t),
{
    let leq = |a: i64, b: i64| a <= b;
    order::ranked_is_a_stable_sort(s);
    order::ranked_is_a_stable_sort(t);
    permutations::same_values(s, t);
    vstd::seq_lib::lemma_sorted_unique(order::ranked(s), order::ranked(t), leq);
}

proof fn spread_is_the_same(s: Seq<i64>, t: Seq<i64>)
    requires
        s.to_multiset() == t.to_multiset(),
    ensures
        adaptive_matching::spread_of(s) == adaptive_matching::spread_of(t),
{
    median_is_the_same(s, t);
    let from = adaptive_matching::median_of(s);
    let f = |v: i64| Some(clock::gap(v as int, from as int) as i64);
    distances_are_given(s, from, f);
    distances_are_given(t, from, f);
    permutations::given_is_the_same(s, t, f);
    median_is_the_same(
        adaptive_matching::distances(s, from),
        adaptive_matching::distances(t, from),
    );
}

proof fn distances_are_given(s: Seq<i64>, from: i64, f: spec_fn(i64) -> Option<i64>)
    requires
        forall|v: i64| #[trigger] f(v) == Some(clock::gap(v as int, from as int) as i64),
    ensures
        adaptive_matching::distances(s, from) == permutations::given(s, f),
    decreases s.len(),
{
    let all = adaptive_matching::distances(s, from);
    if s.len() == 0 {
        assert(all =~= seq![]);
    } else {
        distances_are_given(s.drop_last(), from, f);
        assert(all =~= adaptive_matching::distances(s.drop_last(), from).push(
            clock::gap(s.last() as int, from as int) as i64,
        ));
    }
}

/// Whether two ratings, or none, are the same but for the order of the calls.
pub open spec fn rated_alike(a: Option<Rating>, b: Option<Rating>, p: Seq<int>) -> bool {
    match (a, b) {
        (Some(x), Some(y)) => y == (Rating { at: permutations::permuted(x.at, p), ..x }),
        (None, None) => true,
        _ => false,
    }
}

/// Whether two matches, or none, are the same but for the order of the calls.
pub open spec fn matched_alike(a: Option<Match>, b: Option<Match>, p: Seq<int>) -> bool {
    match (a, b) {
        (Some(x), Some(y)) => y == (Match { at: permutations::permuted(x.at, p), ..x }),
        (None, None) => true,
        _ => false,
    }
}

/// The law of ratings: the order of the calls does not matter to either.
pub proof fn ratings_are_alike(
    trip: Trip,
    calls: Seq<EstimatedCall>,
    by_suffix: Map<Seq<char>, Vec<String>>,
    terms: Terms,
    p: Seq<int>,
)
    requires
        permutations::is_permutation(p, calls.len() as int),
    ensures
        ({
            let count = calls.len() as int;
            let seen = adaptive_matching::sightings_of(calls, by_suffix);
            let other = adaptive_matching::sightings_of(
                permutations::permuted(calls, p),
                by_suffix,
            );
            &&& rated_alike(
                adaptive_matching::unordered_rating(trip, seen, terms, count),
                adaptive_matching::unordered_rating(trip, other, terms, count),
                p,
            )
            &&& rated_alike(
                adaptive_matching::trajectory_rating(trip, seen, terms, count),
                adaptive_matching::trajectory_rating(trip, other, terms, count),
                p,
            )
        }),
{
    let count = calls.len() as int;
    let stops = trip.stop_times@;
    let turned = permutations::permuted(calls, p);
    permutations::permuted_has_the_same(calls, p);
    each_call_by_itself(calls, by_suffix, stops, terms, count);
    each_call_by_itself(turned, by_suffix, stops, terms, count);
    permutations::given_is_the_same(calls, turned, moment_for(by_suffix));
    permutations::given_is_the_same(calls, turned, delay_for(by_suffix, stops, terms));
    permutations::given_is_the_same(calls, turned, station_for(by_suffix, stops, terms));
    let delays = permutations::given(calls, delay_for(by_suffix, stops, terms));
    let others = permutations::given(turned, delay_for(by_suffix, stops, terms));
    permutations::same_values(delays, others);
    permutations::same_values(
        permutations::given(calls, moment_for(by_suffix)),
        permutations::given(turned, moment_for(by_suffix)),
    );
    let flags = permutations::given(calls, station_for(by_suffix, stops, terms));
    permutations::same_values(
        flags,
        permutations::given(turned, station_for(by_suffix, stops, terms)),
    );
    assert(flags.contains(true) <==> permutations::given(
        turned,
        station_for(by_suffix, stops, terms),
    ).contains(true));
    total_is_the_same(delays, others);
    most_is_the_same(delays, others);
    if delays.len() > 0 {
        spread_is_the_same(delays, others);
    }
    let seen = adaptive_matching::sightings_of(calls, by_suffix);
    let other = adaptive_matching::sightings_of(turned, by_suffix);
    let seats = adaptive_matching::seats_of(
        seen,
        adaptive_matching::spots_of(seen, stops, terms),
        count,
    );
    let places = adaptive_matching::seats_of(
        other,
        adaptive_matching::spots_of(other, stops, terms),
        count,
    );
    assert(places =~= permutations::permuted(seats, p)) by {
        assert forall|i: int| 0 <= i < count implies places[i] == seats[p[i]] by {
            assert(turned[i] == calls[p[i]]);
        }
    }
}

proof fn top_is_alike(a: Seq<Option<Rating>>, b: Seq<Option<Rating>>, p: Seq<int>)
    requires
        a.len() == b.len(),
        forall|i: int| 0 <= i < a.len() ==> rated_alike(#[trigger] a[i], b[i], p),
    ensures
        rated_alike(adaptive_matching::top_rating(a), adaptive_matching::top_rating(b), p),
    decreases a.len(),
{
    if a.len() > 0 {
        let x = a.drop_last();
        let y = b.drop_last();
        assert forall|i: int| 0 <= i < x.len() implies rated_alike(#[trigger] x[i], y[i], p) by {
            assert(rated_alike(a[i], b[i], p));
        }
        top_is_alike(x, y, p);
        assert(rated_alike(a[a.len() - 1], b[b.len() - 1], p));
    }
}

/// Whether two searches are for the same calls but for their order.
spec fn searches_alike(
    a: Search,
    b: Search,
    calls: Seq<EstimatedCall>,
    by_suffix: Map<Seq<char>, Vec<String>>,
    p: Seq<int>,
) -> bool {
    &&& permutations::is_permutation(p, calls.len() as int)
    &&& a.count == calls.len()
    &&& a.calls == adaptive_matching::sightings_of(calls, by_suffix)
    &&& b == (Search {
        calls: adaptive_matching::sightings_of(permutations::permuted(calls, p), by_suffix),
        ..a
    })
}

proof fn searches_are_alike(
    schedule: Gtfs,
    journey: Journey,
    by_suffix: Map<Seq<char>, Vec<String>>,
    route: Seq<char>,
    points: bool,
    p: Seq<int>,
)
    requires
        permutations::is_permutation(p, journey.calls.len() as int),
    ensures
        ({
            let other = Journey { calls: permutations::permuted(journey.calls, p), ..journey };
            let a = adaptive_matching::search_of(schedule, journey, by_suffix, route, points);
            let b = adaptive_matching::search_of(schedule, other, by_suffix, route, points);
            &&& searches_alike(a, b, journey.calls, by_suffix, p)
            &&& a.calls.len() == b.calls.len()
        }),
{
    let calls = journey.calls;
    let turned = permutations::permuted(calls, p);
    let seen = adaptive_matching::sightings_of(calls, by_suffix);
    let other = adaptive_matching::sightings_of(turned, by_suffix);
    let moments = permutations::given(calls, moment_for(by_suffix));
    let others = permutations::given(turned, moment_for(by_suffix));
    let terms = Terms { all: schedule.stops@, day: 0, zone: seq![], early: 0, late: 0 };
    permutations::permuted_has_the_same(calls, p);
    each_call_by_itself(calls, by_suffix, seq![], terms, calls.len() as int);
    each_call_by_itself(turned, by_suffix, seq![], terms, calls.len() as int);
    permutations::given_is_the_same(calls, turned, moment_for(by_suffix));
    permutations::same_values(moments, others);
    first_moment_is_least(seen);
    first_moment_is_least(other);
    if seen.len() > 0 {
        let s = adaptive_matching::first_moment(seen)->0;
        let t = adaptive_matching::first_moment(other)->0;
        let i = choose|k: int| 0 <= k < seen.len() && (#[trigger] seen[k]).moment == s;
        let j = choose|k: int| 0 <= k < other.len() && (#[trigger] other[k]).moment == t;
        assert(moments[i] == s && others[j] == t);
        assert(others.contains(s) && moments.contains(t)) by {
            assert(moments.contains(moments[i]) && others.contains(others[j]));
        }
        let i0 = choose|k: int| 0 <= k < others.len() && others[k] == s;
        let j0 = choose|k: int| 0 <= k < moments.len() && moments[k] == t;
        assert(other[i0].moment == s && seen[j0].moment == t);
    }
}

proof fn days_are_alike(
    schedule: Gtfs,
    a: Search,
    b: Search,
    trip: Trip,
    calls: Seq<EstimatedCall>,
    by_suffix: Map<Seq<char>, Vec<String>>,
    p: Seq<int>,
)
    requires
        searches_alike(a, b, calls, by_suffix, p),
    ensures
        ({
            let x = adaptive_matching::ratings_on_days(schedule, a, trip);
            let y = adaptive_matching::ratings_on_days(schedule, b, trip);
            &&& x.len() == y.len()
            &&& forall|i: int| 0 <= i < x.len() ==> rated_alike(#[trigger] x[i], y[i], p)
        }),
{
    let x = adaptive_matching::ratings_on_days(schedule, a, trip);
    let y = adaptive_matching::ratings_on_days(schedule, b, trip);
    assert forall|i: int| 0 <= i < x.len() implies rated_alike(#[trigger] x[i], y[i], p) by {
        let terms = adaptive_matching::terms_of(schedule, a, a.days[i]);
        ratings_are_alike(trip, calls, by_suffix, terms, p);
    }
}

proof fn routes_are_alike(
    schedule: Gtfs,
    a: Search,
    b: Search,
    ids: Seq<Seq<char>>,
    route: Seq<char>,
    destinations: Seq<Seq<char>>,
    mode: DestinationMode,
    calls: Seq<EstimatedCall>,
    by_suffix: Map<Seq<char>, Vec<String>>,
    p: Seq<int>,
)
    requires
        searches_alike(a, b, calls, by_suffix, p),
    ensures
        ({
            let x = adaptive_matching::ratings_of(schedule, a, ids, route, destinations, mode);
            let y = adaptive_matching::ratings_of(schedule, b, ids, route, destinations, mode);
            &&& x.len() == y.len()
            &&& forall|i: int| 0 <= i < x.len() ==> rated_alike(#[trigger] x[i], y[i], p)
            &&& rated_alike(adaptive_matching::top_rating(x), adaptive_matching::top_rating(y), p)
        }),
    decreases ids.len(),
{
    let x = adaptive_matching::ratings_of(schedule, a, ids, route, destinations, mode);
    let y = adaptive_matching::ratings_of(schedule, b, ids, route, destinations, mode);
    if ids.len() > 0 {
        let trip = schedule.trips@[ids.last()];
        routes_are_alike(
            schedule,
            a,
            b,
            ids.drop_last(),
            route,
            destinations,
            mode,
            calls,
            by_suffix,
            p,
        );
        days_are_alike(schedule, a, b, trip, calls, by_suffix, p);
        let front = adaptive_matching::ratings_of(
            schedule,
            a,
            ids.drop_last(),
            route,
            destinations,
            mode,
        );
        assert forall|i: int| 0 <= i < x.len() implies rated_alike(#[trigger] x[i], y[i], p) by {
            if i < front.len() {
                assert(x[i] == front[i]);
            } else {
                let here = adaptive_matching::ratings_on_days(schedule, a, trip);
                assert(x[i] == here[i - front.len()]);
            }
        }
    }
    top_is_alike(x, y, p);
}

/// The law of the tolerant match: the order of the calls does not matter. A journey with the same
/// calls in another order is matched with the same trip, on the same day and as near, each call at
/// the same stop.
pub proof fn order_of_calls_is_idle(
    schedule: Gtfs,
    journey: Journey,
    by_suffix: Map<Seq<char>, Vec<String>>,
    p: Seq<int>,
)
    requires
        permutations::is_permutation(p, journey.calls.len() as int),
    ensures
        matched_alike(
            adaptive_matching::tolerant_match(schedule, journey, by_suffix),
            adaptive_matching::tolerant_match(
                schedule,
                Journey { calls: permutations::permuted(journey.calls, p), ..journey },
                by_suffix,
            ),
            p,
        ),
{
    if let Some(route) = matching::route_of(journey) {
        let other = Journey { calls: permutations::permuted(journey.calls, p), ..journey };
        let points = adaptive_matching::is_of_points(journey);
        let a = adaptive_matching::search_of(schedule, journey, by_suffix, route, points);
        let b = adaptive_matching::search_of(schedule, other, by_suffix, route, points);
        let ids = schedule.trips.keys();
        let to = adaptive_matching::destinations_of(journey, by_suffix);
        searches_are_alike(schedule, journey, by_suffix, route, points, p);
        routes_are_alike(
            schedule,
            a,
            b,
            ids,
            route,
            to,
            DestinationMode::Terminus,
            journey.calls,
            by_suffix,
            p,
        );
        routes_are_alike(
            schedule,
            a,
            b,
            ids,
            route,
            to,
            DestinationMode::AnyStop,
            journey.calls,
            by_suffix,
            p,
        );
        routes_are_alike(
            schedule,
            a,
            b,
            ids,
            route,
            to,
            DestinationMode::Ignored,
            journey.calls,
            by_suffix,
            p,
        );
    }
}

/// The law of remembered trips: the order of the calls does not matter to them either.
pub proof fn order_of_remembered_calls_is_idle(
    schedule: Gtfs,
    journey: Journey,
    by_suffix: Map<Seq<char>, Vec<String>>,
    trip_id: Seq<char>,
    p: Seq<int>,
)
    requires
        permutations::is_permutation(p, journey.calls.len() as int),
    ensures
        matched_alike(
            adaptive_matching::remembered_match(schedule, journey, by_suffix, trip_id),
            adaptive_matching::remembered_match(
                schedule,
                Journey { calls: permutations::permuted(journey.calls, p), ..journey },
                by_suffix,
                trip_id,
            ),
            p,
        ),
{
    if let Some(route) = matching::route_of(journey) {
        let other = Journey { calls: permutations::permuted(journey.calls, p), ..journey };
        let a = adaptive_matching::search_of(schedule, journey, by_suffix, route, false);
        let b = adaptive_matching::search_of(schedule, other, by_suffix, route, false);
        let trip = schedule.trips@[trip_id];
        searches_are_alike(schedule, journey, by_suffix, route, false, p);
        days_are_alike(schedule, a, b, trip, journey.calls, by_suffix, p);
        let x = adaptive_matching::ratings_on_days(schedule, a, trip);
        let y = adaptive_matching::ratings_on_days(schedule, b, trip);
        let near = adaptive_matching::near_ratings(x);
        let nigh = adaptive_matching::near_ratings(y);
        assert forall|i: int| 0 <= i < near.len() implies rated_alike(
            #[trigger] near[i],
            nigh[i],
            p,
        ) by {
            assert(rated_alike(x[i], y[i], p));
        }
        top_is_alike(near, nigh, p);
    }
}

} // verus!
