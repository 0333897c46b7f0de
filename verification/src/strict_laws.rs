//! What holds of the strict match: how calls are compared with a trip, which trips are weighed, and
//! which is taken.

use crate::alignment;
use crate::clock;
use crate::directions::{self, Pattern};
use crate::gtfs::{self, Gtfs, StopTime, Trip};
use crate::lists;
use crate::matching::{self, GtfsMatchIndex, Match, MatchKind, MatchMissReason};
use crate::matching_laws;
use crate::scoring::{self, Call, Candidate, Score};
use crate::services;
use crate::siri_models::Journey;
use crate::stops::{self, StopMatchMode};
use crate::table;
use crate::text;
use crate::time_laws;
use vstd::prelude::*;

verus! {

/// Whether `distance` is that of an observed time from the moments at which a stop is due: there is
/// one exactly if the call gives the time and the stop is due on the day, and it is the least.
pub open spec fn is_distance(
    observed: Option<i64>,
    due: Option<u32>,
    day: i32,
    zone: Seq<char>,
    distance: Option<int>,
) -> bool {
    match distance {
        Some(d) => observed is Some && due is Some && time_laws::is_least_distance(
            observed->0 as int,
            clock::scheduled_times(day, due->0, zone),
            d,
        ),
        None => observed is None || due is None || clock::scheduled_times(
            day,
            due->0,
            zone,
        ).len() == 0,
    }
}

/// When a stop is due to be reached: at its arrival, else its departure.
pub open spec fn due_to_arrive(stop: StopTime) -> Option<u32> {
    if stop.arrival_time is Some {
        stop.arrival_time
    } else {
        stop.departure_time
    }
}

/// When a stop is due to be left: at its departure, else its arrival.
pub open spec fn due_to_depart(stop: StopTime) -> Option<u32> {
    if stop.departure_time is Some {
        stop.departure_time
    } else {
        stop.arrival_time
    }
}

/// The size of a distance that there may be.
pub open spec fn size_of(distance: Option<int>) -> int {
    match distance {
        Some(d) => d,
        None => 0,
    }
}

/// One for a distance, nothing for none.
pub open spec fn one_for(distance: Option<int>) -> int {
    match distance {
        Some(_) => 1,
        None => 0,
    }
}

/// The law of comparisons: every time that a call gives counts. The score of a call at a stop has a
/// difference for its arrival and one for its departure, each exactly if the call gives that time
/// and the stop is due; their sum; and the greater of them. Without a service day there are none.
pub proof fn every_time_counts(
    call: Call,
    stop: StopTime,
    day: i32,
    zone: Seq<char>,
    arrival: Option<int>,
    departure: Option<int>,
)
    requires
        is_distance(call.arrival, due_to_arrive(stop), day, zone, arrival),
        is_distance(call.departure, due_to_depart(stop), day, zone, departure),
    ensures
        ({
            let score = scoring::call_score(call, stop, Some((day, zone)));
            &&& score.count == one_for(arrival) + one_for(departure)
            &&& score.total == size_of(arrival) + size_of(departure)
            &&& score.most >= size_of(arrival) && score.most >= size_of(departure)
            &&& score.most == size_of(arrival) || score.most == size_of(departure)
        }),
        scoring::call_score(call, stop, None).count == 0,
        scoring::call_score(call, stop, None).total == 0,
        scoring::call_score(call, stop, None).most == 0,
{
    distances_are_differences(call.arrival, due_to_arrive(stop), day, zone, arrival);
    distances_are_differences(call.departure, due_to_depart(stop), day, zone, departure);
    time_laws::stops_are_due(stop);
}

proof fn distances_are_differences(
    observed: Option<i64>,
    due: Option<u32>,
    day: i32,
    zone: Seq<char>,
    distance: Option<int>,
)
    requires
        is_distance(observed, due, day, zone, distance),
    ensures
        scoring::difference(observed, due, day, zone) == distance,
        distance matches Some(d) ==> d >= 0,
{
    if observed is Some && due is Some {
        let moment = observed->0 as int;
        let times = clock::scheduled_times(day, due->0, zone);
        time_laws::least_gap_is_the_distance(moment, times);
        if let Some(d) = distance {
            let k = choose|k: int|
                0 <= k < times.len() && time_laws::apart(moment, #[trigger] times[k] as int) == d;
            assert(times.len() > 0);
            time_laws::least_distance_is_one(
                moment,
                times,
                d,
                clock::least_gap(moment, times)->0,
            );
        }
    }
}

/// How many times a call gives.
pub open spec fn times_given(call: Call) -> int {
    (if call.arrival is Some {
        1int
    } else {
        0
    }) + (if call.departure is Some {
        1int
    } else {
        0
    })
}

/// How many times calls give.
pub open spec fn all_times_given(calls: Seq<Call>) -> int
    decreases calls.len(),
{
    if calls.len() == 0 {
        0
    } else {
        all_times_given(calls.drop_last()) + times_given(calls.last())
    }
}

proof fn a_time_is_counted(calls: Seq<Call>, i: int)
    requires
        0 <= i < calls.len(),
        times_given(calls[i]) > 0,
    ensures
        all_times_given(calls) > 0,
    decreases calls.len(),
{
    if i < calls.len() - 1 {
        a_time_is_counted(calls.drop_last(), i);
    } else {
        times_are_natural(calls.drop_last());
    }
}

proof fn times_are_natural(calls: Seq<Call>)
    ensures
        all_times_given(calls) >= 0,
    decreases calls.len(),
{
    if calls.len() > 0 {
        times_are_natural(calls.drop_last());
    }
}

proof fn timed_cost_counts_all(
    trip: Trip,
    calls: Seq<Call>,
    n: int,
    day: i32,
    zone: Seq<char>,
    at: Seq<usize>,
)
    requires
        scoring::is_fully_timed(trip, day, zone),
        0 <= n <= calls.len(),
        at.len() == n,
        forall|i: int| 0 <= i < n ==> #[trigger] at[i] < trip.stop_times@.len(),
    ensures
        scoring::cost_of(at, scoring::cost_at(trip, calls, Some((day, zone)))).count
            == all_times_given(calls.take(n)),
    decreases n,
{
    if n > 0 {
        let rest = at.drop_last();
        assert forall|i: int| 0 <= i < n - 1 implies #[trigger] rest[i] < trip.stop_times@.len() by {
            assert(rest[i] == at[i]);
        }
        timed_cost_counts_all(trip, calls, n - 1, day, zone, rest);
        assert(calls.take(n).drop_last() =~= calls.take(n - 1));
        assert(calls.take(n).last() == calls[n - 1]);
        let stop = trip.stop_times@[at[n - 1] as int];
        assert(at.last() == at[n - 1]);
        assert(gtfs::due_at_arrival(stop) is Some && gtfs::due_at_departure(stop) is Some);
        if calls[n - 1].arrival is Some {
            time_laws::least_gap_is_the_distance(
                calls[n - 1].arrival->0 as int,
                clock::scheduled_times(day, gtfs::due_at_arrival(stop)->0, zone),
            );
        }
        if calls[n - 1].departure is Some {
            time_laws::least_gap_is_the_distance(
                calls[n - 1].departure->0 as int,
                clock::scheduled_times(day, gtfs::due_at_departure(stop)->0, zone),
            );
        }
    }
}

/// The law of timed trips: one that is due at every stop on a day is a candidate on it exactly if
/// the calls have an alignment with it and one of them gives a time; it is then compared by every
/// time that the calls give.
pub proof fn timed_trips_are_compared_by_every_time(
    trip: Trip,
    calls: Seq<Call>,
    day: i32,
    zone: Seq<char>,
    stations: Map<Seq<char>, String>,
    mode: StopMatchMode,
)
    requires
        scoring::is_fully_timed(trip, day, zone),
        trip.stop_times@.len() <= usize::MAX,
    ensures
        scoring::candidate_of(trip, calls, Some(day), Some((day, zone)), stations, mode) is Some
            <==> scoring::calls_fit(calls, gtfs::trip_stops(trip), stations, mode) && exists|i: int|
            0 <= i < calls.len() && ((#[trigger] calls[i]).arrival is Some || calls[i].departure
                is Some),
        scoring::candidate_of(
            trip,
            calls,
            Some(day),
            Some((day, zone)),
            stations,
            mode,
        ) matches Some(found) ==> found.count == all_times_given(calls),
{
    let may = scoring::may_call_at(trip, calls, stations, mode);
    let cost = scoring::cost_at(trip, calls, Some((day, zone)));
    let n = calls.len() as int;
    let m = trip.stop_times@.len() as int;
    scoring::placement_is_an_alignment(n, m, may, cost);
    assert(gtfs::trip_stops(trip).len() == m);
    if let Some(p) = scoring::placement(n, m, may, cost) {
        let at = scoring::indices(p.at);
        assert(p.at.len() == at.len());
        assert forall|i: int| 0 <= i < n implies #[trigger] p.at[i] < m by {
            assert(at[i] < m);
        }
        timed_cost_counts_all(trip, calls, n, day, zone, p.at);
        times_are_natural(calls);
        assert(calls.take(n) =~= calls);
        if p.score.count > 0 {
            some_time_is_given(calls);
        }
        if exists|i: int|
            0 <= i < calls.len() && ((#[trigger] calls[i]).arrival is Some || calls[i].departure
                is Some) {
            let i = choose|i: int|
                0 <= i < calls.len() && ((#[trigger] calls[i]).arrival is Some
                    || calls[i].departure is Some);
            a_time_is_counted(calls, i);
        }
    }
}

proof fn some_time_is_given(calls: Seq<Call>)
    requires
        all_times_given(calls) > 0,
    ensures
        exists|i: int|
            0 <= i < calls.len() && ((#[trigger] calls[i]).arrival is Some || calls[i].departure
                is Some),
    decreases calls.len(),
{
    if times_given(calls.last()) > 0 {
        assert(calls[calls.len() - 1].arrival is Some || calls[calls.len() - 1].departure is Some);
    } else {
        let rest = calls.drop_last();
        some_time_is_given(rest);
        let i = choose|i: int|
            0 <= i < rest.len() && ((#[trigger] rest[i]).arrival is Some || rest[i].departure
                is Some);
        assert(calls[i] == rest[i]);
    }
}

/// The law of candidates: one is of its trip and day, by an alignment of all calls; its differences
/// are those of the calls at the stops of that alignment: their mean, the greatest, and how many.
pub proof fn candidates_hold_their_differences(
    trip: Trip,
    calls: Seq<Call>,
    day: i32,
    zone: Seq<char>,
    stations: Map<Seq<char>, String>,
    mode: StopMatchMode,
)
    requires
        trip.stop_times@.len() <= usize::MAX,
    ensures
        scoring::candidate_of(
            trip,
            calls,
            Some(day),
            Some((day, zone)),
            stations,
            mode,
        ) matches Some(found) ==> {
            let cost = scoring::cost_of(
                found.at,
                scoring::cost_at(trip, calls, Some((day, zone))),
            );
            &&& found.trip_id == trip.id@
            &&& found.day == day
            &&& found.count > 0
            &&& found.count == cost.count
            &&& found.mean == cost.total / cost.count
            &&& found.most == cost.most
            &&& found.by_station <==> mode == StopMatchMode::ParentStation
            &&& alignment::is_alignment(
                scoring::indices(found.at),
                calls.len() as int,
                trip.stop_times@.len() as int,
                scoring::may_call_at(trip, calls, stations, mode),
            )
        },
{
    let may = scoring::may_call_at(trip, calls, stations, mode);
    let cost = scoring::cost_at(trip, calls, Some((day, zone)));
    let n = calls.len() as int;
    let m = trip.stop_times@.len() as int;
    scoring::placement_is_an_alignment(n, m, may, cost);
    if let Some(p) = scoring::placement(n, m, may, cost) {
        assert forall|i: int, j: int| (#[trigger] cost(i, j)).count >= 0 by {}
        scoring::counts_are_natural(p.at, cost);
    }
}

/// The law of costs: what the calls of an alignment cost is what each costs at its stop: the sums
/// of the differences and of their numbers, and the greatest.
pub proof fn costs_add_up(
    at: Seq<usize>,
    stop: usize,
    cost: spec_fn(int, int) -> Score,
)
    ensures
        ({
            let before = scoring::cost_of(at, cost);
            let after = scoring::cost_of(at.push(stop), cost);
            let here = cost(at.len() as int, stop as int);
            &&& after.total == before.total + here.total
            &&& after.count == before.count + here.count
            &&& after.most >= before.most && after.most >= here.most
            &&& after.most == before.most || after.most == here.most
        }),
        scoring::cost_of(seq![], cost).total == 0,
        scoring::cost_of(seq![], cost).count == 0,
        scoring::cost_of(seq![], cost).most == 0,
{
    assert(at.push(stop).drop_last() =~= at);
}

/// The law of stops: a call may be at a stop by the same stop if its reference may mean it, and by
/// the station if it may mean one of the same station.
pub proof fn calls_may_be_at_stops(
    trip: Trip,
    calls: Seq<Call>,
    stations: Map<Seq<char>, String>,
    call: int,
    stop: int,
)
    requires
        0 <= call < calls.len(),
        0 <= stop < trip.stop_times@.len(),
    ensures
        scoring::may_call_at(trip, calls, stations, StopMatchMode::Exact)(call, stop)
            <==> calls[call].aliases.contains(trip.stop_times@[stop].stop_id@),
        scoring::may_call_at(trip, calls, stations, StopMatchMode::ParentStation)(call, stop)
            <==> exists|i: int|
            0 <= i < calls[call].aliases.len() && stops::station_of(
                stations,
                #[trigger] calls[call].aliases[i],
            ) == stops::station_of(stations, trip.stop_times@[stop].stop_id@),
{
    let aliases = calls[call].aliases;
    let id = trip.stop_times@[stop].stop_id@;
    if aliases.contains(id) {
        let i = choose|i: int| 0 <= i < aliases.len() && aliases[i] == id;
        assert(stops::same_stop(id, aliases[i], stations, StopMatchMode::Exact));
    }
    if exists|i: int|
        0 <= i < aliases.len() && stops::station_of(stations, #[trigger] aliases[i])
            == stops::station_of(stations, id) {
        let i = choose|i: int|
            0 <= i < aliases.len() && stops::station_of(stations, #[trigger] aliases[i])
                == stops::station_of(stations, id);
        assert(stops::same_stop(id, aliases[i], stations, StopMatchMode::ParentStation));
    }
}

/// Whether a moment is an arrival or a departure of a call.
pub open spec fn is_given(calls: Seq<Call>, moment: i64) -> bool {
    exists|i: int|
        0 <= i < calls.len() && ((#[trigger] calls[i]).arrival == Some(moment)
            || calls[i].departure == Some(moment))
}

/// Whether a moment is the first that the calls give.
pub open spec fn is_first_given(calls: Seq<Call>, moment: i64) -> bool {
    is_given(calls, moment) && forall|other: i64| #[trigger] is_given(calls, other) ==> moment
        <= other
}

/// The earliest time is the first that the calls give, if they give one.
pub proof fn earliest_is_first(calls: Seq<Call>)
    ensures
        matching::earliest(calls) is Some <==> matching::has_time(calls),
        matching::earliest(calls) matches Some(moment) ==> is_first_given(calls, moment),
    decreases calls.len(),
{
    if calls.len() > 0 {
        let rest = calls.drop_last();
        let n = rest.len() as int;
        earliest_is_first(rest);
        assert(calls[n] == calls.last());
        assert forall|i: int| 0 <= i < n implies #[trigger] calls[i] == rest[i] by {}
        assert forall|moment: i64| #[trigger] is_given(calls, moment) <==> is_given(rest, moment)
            || calls[n].arrival == Some(moment) || calls[n].departure == Some(moment) by {
            if is_given(rest, moment) {
                let i = choose|i: int|
                    0 <= i < rest.len() && ((#[trigger] rest[i]).arrival == Some(moment)
                        || rest[i].departure == Some(moment));
                assert(calls[i].arrival == Some(moment) || calls[i].departure == Some(moment));
            }
        }
        if matching::has_time(rest) {
            let i = choose|i: int|
                0 <= i < rest.len() && ((#[trigger] rest[i]).arrival is Some || rest[i].departure
                    is Some);
            assert(calls[i].arrival is Some || calls[i].departure is Some);
        }
        if matching::has_time(calls) && calls[n].arrival is None && calls[n].departure is None {
            let i = choose|i: int|
                0 <= i < calls.len() && ((#[trigger] calls[i]).arrival is Some
                    || calls[i].departure is Some);
            assert(rest[i].arrival is Some || rest[i].departure is Some);
        }
        if matching::earliest(rest) is None {
            assert forall|moment: i64| !(#[trigger] is_given(rest, moment)) by {
                if is_given(rest, moment) {
                    let i = choose|i: int|
                        0 <= i < rest.len() && ((#[trigger] rest[i]).arrival == Some(moment)
                            || rest[i].departure == Some(moment));
                    assert(rest[i].arrival is Some || rest[i].departure is Some);
                    assert(matching::has_time(rest));
                }
            }
        }
        if let Some(moment) = matching::earliest(calls) {
            assert(is_given(calls, moment));
        }
    }
}

/// Whether a day is that of the first moment that the calls give, by the clocks of a zone, or one
/// of the two days before it.
pub open spec fn is_service_day(calls: Seq<Call>, zone: Seq<char>, day: i32) -> bool {
    exists|moment: i64| #[trigger]
        is_first_given(calls, moment) && clock::zone_day(moment, zone) is Some && clock::zone_day(
            moment,
            zone,
        )->0 - 2 <= day <= clock::zone_day(moment, zone)->0 && -95_746_129 <= day
            && clock::zone_day(moment, zone)->0 <= 95_745_399
}

/// The law of service days: a journey may have begun on the local day of its first time and on the
/// two days before it.
pub proof fn days_are_those_of_the_first_time(calls: Seq<Call>, zone: Seq<char>, day: i32)
    ensures
        matching::days_of(calls, zone) is Some && matching::days_of(calls, zone)->0.contains(day)
            <==> is_service_day(calls, zone, day),
{
    earliest_is_first(calls);
    if let Some(moment) = matching::earliest(calls) {
        if let Some(last) = clock::zone_day(moment, zone) {
            time_laws::service_days_are_three(last);
            assert(clock::recent_days(last).contains(day) <==> -95_746_129 <= day && last
                <= 95_745_399 && last - 2 <= day <= last);
        }
        assert forall|other: i64| #[trigger] is_first_given(calls, other) implies other
            == moment by {
            assert(is_given(calls, other) && is_given(calls, moment));
        }
    } else {
        assert forall|other: i64| !(#[trigger] is_first_given(calls, other)) by {
            if is_first_given(calls, other) {
                let i = choose|i: int|
                    0 <= i < calls.len() && ((#[trigger] calls[i]).arrival == Some(other)
                        || calls[i].departure == Some(other));
                assert(calls[i].arrival is Some || calls[i].departure is Some);
            }
        }
    }
}

/// Whether a stop is one of the destinations.
pub open spec fn is_there(to: Seq<Seq<char>>, stop: Seq<char>) -> bool {
    exists|i: int| 0 <= i < to.len() && #[trigger] to[i] == stop
}

/// Whether a stop has the station of one of the destinations.
pub open spec fn is_by_there(
    stations: Map<Seq<char>, String>,
    to: Seq<Seq<char>>,
    stop: Seq<char>,
) -> bool {
    exists|i: int|
        0 <= i < to.len() && stops::station_of(stations, #[trigger] to[i]) == stops::station_of(
            stations,
            stop,
        )
}

/// Whether a trip is of a route and has stops.
pub open spec fn is_on_route(schedule: Gtfs, route: Seq<char>, id: Seq<char>) -> bool {
    &&& schedule.trips@.contains_key(id)
    &&& schedule.trips@[id].route_id@ == route
    &&& schedule.trips@[id].stop_times@.len() > 0
}

/// The last stop of a trip.
pub open spec fn end_of(schedule: Gtfs, id: Seq<char>) -> Seq<char> {
    schedule.trips@[id].stop_times@[schedule.trips@[id].stop_times@.len() - 1].stop_id@
}

/// Whether a trip of a route is sought for a journey: all are without a known destination; else
/// those that end there; if none does, those that end at its station; if none does either, all.
pub open spec fn is_sought(
    index: GtfsMatchIndex,
    schedule: Gtfs,
    route: Seq<char>,
    to: Seq<Seq<char>>,
    id: Seq<char>,
) -> bool {
    let stations = index.canonical_stop_ids@;
    let one_ends_there = exists|other: Seq<char>| #[trigger]
        is_on_route(schedule, route, other) && is_there(to, end_of(schedule, other));
    let one_ends_by = exists|other: Seq<char>| #[trigger]
        is_on_route(schedule, route, other) && is_by_there(
            stations,
            to,
            end_of(schedule, other),
        );
    &&& is_on_route(schedule, route, id)
    &&& if to.len() == 0 {
        true
    } else if one_ends_there {
        is_there(to, end_of(schedule, id))
    } else if one_ends_by {
        is_by_there(stations, to, end_of(schedule, id))
    } else {
        true
    }
}

/// The pattern of a trip among those of its route.
pub proof fn pattern_of_trip(
    index: GtfsMatchIndex,
    schedule: Gtfs,
    route: Seq<char>,
    id: Seq<char>,
) -> (p: int)
    requires
        matching::is_index_of(index, schedule),
        is_on_route(schedule, route, id),
    ensures
        ({
            let patterns = directions::patterns_at(index.directions@, route);
            &&& 0 <= p < patterns.len()
            &&& patterns[p].stops == gtfs::trip_stops(schedule.trips@[id])
            &&& patterns[p].trips.contains(id)
            &&& patterns[p].destination == end_of(schedule, id)
        }),
{
    let patterns = directions::patterns_at(index.directions@, route);
    let trip = schedule.trips@[id];
    let stops = gtfs::trip_stops(trip);
    assert(schedule.trips@.contains_key(id) && trip.stop_times@.len() > 0);
    assert(directions::has_stops(patterns, stops));
    let p = choose|p: int| 0 <= p < patterns.len() && (#[trigger] patterns[p]).stops == stops;
    assert(directions::is_direction(patterns[p], route, schedule.trips@));
    assert(directions::runs_through(schedule.trips@, id, route, patterns[p].stops));
    assert(stops.last() == stops[stops.len() - 1]);
    p
}

/// The trips of a pattern of a route.
pub proof fn trips_of_pattern(
    index: GtfsMatchIndex,
    schedule: Gtfs,
    route: Seq<char>,
    p: int,
    id: Seq<char>,
)
    requires
        matching::is_index_of(index, schedule),
        0 <= p < directions::patterns_at(index.directions@, route).len(),
    ensures
        ({
            let pattern = directions::patterns_at(index.directions@, route)[p];
            &&& pattern.trips.contains(id) ==> is_on_route(schedule, route, id) && gtfs::trip_stops(
                schedule.trips@[id],
            ) == pattern.stops && end_of(schedule, id) == pattern.destination
            &&& pattern.trips.len() > 0
        }),
{
    let pattern = directions::patterns_at(index.directions@, route)[p];
    assert(directions::is_direction(pattern, route, schedule.trips@));
    if pattern.trips.contains(id) {
        assert(directions::runs_through(schedule.trips@, id, route, pattern.stops));
        let stops = gtfs::trip_stops(schedule.trips@[id]);
        assert(stops.len() == schedule.trips@[id].stop_times@.len());
        assert(stops[stops.len() - 1] == end_of(schedule, id));
    }
}

/// What a filter leaves is what is there and passes.
pub proof fn filtered<A>(s: Seq<A>, f: spec_fn(A) -> bool, x: A)
    ensures
        s.filter(f).contains(x) <==> s.contains(x) && f(x),
        s.filter(f).len() > 0 <==> exists|i: int| 0 <= i < s.len() && f(#[trigger] s[i]),
{
    broadcast use vstd::seq_lib::group_filter_ensures;

    if s.filter(f).contains(x) {
        s.lemma_filter_contains_rev(f, x);
        let i = choose|i: int| 0 <= i < s.filter(f).len() && s.filter(f)[i] == x;
        assert(f(s.filter(f)[i]));
    }
    if s.contains(x) && f(x) {
        let i = choose|i: int| 0 <= i < s.len() && s[i] == x;
        assert(s.filter(f).contains(s[i]));
    }
    if s.filter(f).len() > 0 {
        let y = s.filter(f)[0];
        assert(s.filter(f).contains(y));
        s.lemma_filter_contains_rev(f, y);
        let i = choose|i: int| 0 <= i < s.len() && s[i] == y;
        assert(f(s.filter(f)[0]));
        assert(f(s[i]));
    }
    if exists|i: int| 0 <= i < s.len() && f(#[trigger] s[i]) {
        let i = choose|i: int| 0 <= i < s.len() && f(#[trigger] s[i]);
        assert(s.filter(f).contains(s[i]));
    }
}

proof fn destinations_by_name(
    index: GtfsMatchIndex,
    to: Seq<Seq<char>>,
    stop: Seq<char>,
)
    ensures
        to.contains(stop) <==> is_there(to, stop),
        matching::is_destination(index, stop, to) <==> is_by_there(
            index.canonical_stop_ids@,
            to,
            stop,
        ),
{
    let stations = index.canonical_stop_ids@;
    if to.contains(stop) {
        let i = choose|i: int| 0 <= i < to.len() && to[i] == stop;
        assert(to[i] == stop);
    }
    if matching::is_destination(index, stop, to) {
        let i = choose|i: int|
            0 <= i < to.len() && index.same_station(stop, #[trigger] to[i]);
        assert(stops::station_of(stations, to[i]) == stops::station_of(stations, stop));
    }
    if is_by_there(stations, to, stop) {
        let i = choose|i: int|
            0 <= i < to.len() && stops::station_of(stations, #[trigger] to[i])
                == stops::station_of(stations, stop);
        assert(index.same_station(stop, to[i]));
    }
}

/// A pattern of a route ends where one may exactly if a trip of the route does.
proof fn patterns_end_as_trips(
    index: GtfsMatchIndex,
    schedule: Gtfs,
    route: Seq<char>,
    f: spec_fn(Seq<char>) -> bool,
)
    requires
        matching::is_index_of(index, schedule),
    ensures
        (exists|i: int|
            0 <= i < directions::patterns_at(index.directions@, route).len() && f(
                (#[trigger] directions::patterns_at(index.directions@, route)[i]).destination,
            )) <==> exists|id: Seq<char>| #[trigger]
            is_on_route(schedule, route, id) && f(end_of(schedule, id)),
{
    let patterns = directions::patterns_at(index.directions@, route);
    if exists|i: int| 0 <= i < patterns.len() && f((#[trigger] patterns[i]).destination) {
        let i = choose|i: int| 0 <= i < patterns.len() && f((#[trigger] patterns[i]).destination);
        let id = patterns[i].trips[0];
        trips_of_pattern(index, schedule, route, i, id);
        assert(patterns[i].trips.contains(id));
        assert(is_on_route(schedule, route, id) && f(end_of(schedule, id)));
    }
    if exists|id: Seq<char>| #[trigger] is_on_route(schedule, route, id) && f(
        end_of(schedule, id),
    ) {
        let id = choose|id: Seq<char>| #[trigger]
            is_on_route(schedule, route, id) && f(end_of(schedule, id));
        let i = pattern_of_trip(index, schedule, route, id);
        assert(f(patterns[i].destination));
    }
}

proof fn tiers_of_patterns(
    index: GtfsMatchIndex,
    schedule: Gtfs,
    route: Seq<char>,
    to: Seq<Seq<char>>,
)
    requires
        matching::is_index_of(index, schedule),
    ensures
        directions::patterns_at(index.directions@, route).filter(matching::ends_exactly(to)).len()
            > 0 <==> exists|other: Seq<char>| #[trigger]
            is_on_route(schedule, route, other) && is_there(to, end_of(schedule, other)),
        directions::patterns_at(index.directions@, route).filter(
            matching::ends_nearby(index, to),
        ).len() > 0 <==> exists|other: Seq<char>| #[trigger]
            is_on_route(schedule, route, other) && is_by_there(
                index.canonical_stop_ids@,
                to,
                end_of(schedule, other),
            ),
{
    let patterns = directions::patterns_at(index.directions@, route);
    let there = |stop: Seq<char>| is_there(to, stop);
    let by_there = |stop: Seq<char>| is_by_there(index.canonical_stop_ids@, to, stop);
    patterns_end_as_trips(index, schedule, route, there);
    patterns_end_as_trips(index, schedule, route, by_there);
    filtered(patterns, matching::ends_exactly(to), patterns[0]);
    filtered(patterns, matching::ends_nearby(index, to), patterns[0]);
    assert forall|i: int| 0 <= i < patterns.len() implies (matching::ends_exactly(to)(
        #[trigger] patterns[i],
    ) <==> there(patterns[i].destination)) && (matching::ends_nearby(index, to)(patterns[i])
        <==> by_there(patterns[i].destination)) by {
        destinations_by_name(index, to, patterns[i].destination);
    }
    if exists|i: int| 0 <= i < patterns.len() && there((#[trigger] patterns[i]).destination) {
        let i = choose|i: int|
            0 <= i < patterns.len() && there((#[trigger] patterns[i]).destination);
        assert(matching::ends_exactly(to)(patterns[i]));
    }
    if exists|i: int| 0 <= i < patterns.len() && by_there((#[trigger] patterns[i]).destination) {
        let i = choose|i: int|
            0 <= i < patterns.len() && by_there((#[trigger] patterns[i]).destination);
        assert(matching::ends_nearby(index, to)(patterns[i]));
    }
    if exists|other: Seq<char>| #[trigger]
        is_on_route(schedule, route, other) && is_there(to, end_of(schedule, other)) {
        let other = choose|other: Seq<char>| #[trigger]
            is_on_route(schedule, route, other) && is_there(to, end_of(schedule, other));
        assert(is_on_route(schedule, route, other) && there(end_of(schedule, other)));
    }
    if exists|other: Seq<char>| #[trigger]
        is_on_route(schedule, route, other) && is_by_there(
            index.canonical_stop_ids@,
            to,
            end_of(schedule, other),
        ) {
        let other = choose|other: Seq<char>| #[trigger]
            is_on_route(schedule, route, other) && is_by_there(
                index.canonical_stop_ids@,
                to,
                end_of(schedule, other),
            );
        assert(is_on_route(schedule, route, other) && by_there(end_of(schedule, other)));
    }
}

/// The patterns that are looked through are those of the trips that are sought.
pub proof fn aimed_are_sought(
    index: GtfsMatchIndex,
    schedule: Gtfs,
    route: Seq<char>,
    to: Seq<Seq<char>>,
    p: int,
    id: Seq<char>,
)
    requires
        matching::is_index_of(index, schedule),
        0 <= p < directions::patterns_at(index.directions@, route).len(),
        directions::patterns_at(index.directions@, route)[p].trips.contains(id),
    ensures
        matching::aimed_patterns(
            index,
            directions::patterns_at(index.directions@, route),
            to,
        ).contains(directions::patterns_at(index.directions@, route)[p]) <==> is_sought(
            index,
            schedule,
            route,
            to,
            id,
        ),
{
    let patterns = directions::patterns_at(index.directions@, route);
    let pattern = patterns[p];
    trips_of_pattern(index, schedule, route, p, id);
    tiers_of_patterns(index, schedule, route, to);
    filtered(patterns, matching::ends_exactly(to), pattern);
    filtered(patterns, matching::ends_nearby(index, to), pattern);
    assert(patterns.contains(patterns[p]));
    destinations_by_name(index, to, pattern.destination);
}

/// Whether a trip is weighed for the calls of a journey as the given candidate: it is sought, runs
/// on one of the service days, and is that candidate on it.
pub open spec fn is_weighed(
    index: GtfsMatchIndex,
    schedule: Gtfs,
    route: Seq<char>,
    to: Seq<Seq<char>>,
    calls: Seq<Call>,
    zone: Seq<char>,
    mode: StopMatchMode,
    id: Seq<char>,
    found: Candidate,
) -> bool {
    &&& is_sought(index, schedule, route, to, id)
    &&& exists|day: i32|
        {
            &&& #[trigger] is_service_day(calls, zone, day)
            &&& index.is_running(schedule, schedule.trips@[id].service_id@, day)
            &&& scoring::candidate_of(
                schedule.trips@[id],
                calls,
                Some(day),
                Some((day, zone)),
                index.canonical_stop_ids@,
                mode,
            ) == Some(found)
        }
}

/// Whether a trip is the given candidate on one of the days.
pub open spec fn is_candidate_on(
    index: GtfsMatchIndex,
    schedule: Gtfs,
    calls: Seq<Call>,
    days: Seq<i32>,
    zone: Seq<char>,
    mode: StopMatchMode,
    id: Seq<char>,
    found: Candidate,
) -> bool {
    &&& schedule.trips@.contains_key(id)
    &&& exists|i: int|
        {
            &&& 0 <= i < days.len()
            &&& index.is_running(schedule, schedule.trips@[id].service_id@, #[trigger] days[i])
            &&& scoring::candidate_of(
                schedule.trips@[id],
                calls,
                Some(days[i]),
                Some((days[i], zone)),
                index.canonical_stop_ids@,
                mode,
            ) == Some(found)
        }
}

/// The candidates that a trip is on days are those that it is on one of them.
pub proof fn on_days_are_candidates(
    index: GtfsMatchIndex,
    schedule: Gtfs,
    calls: Seq<Call>,
    days: Seq<i32>,
    zone: Seq<char>,
    mode: StopMatchMode,
    id: Seq<char>,
    found: Candidate,
)
    requires
        schedule.trips@.contains_key(id),
    ensures
        index.on_days(schedule, schedule.trips@[id], calls, days, zone, mode).contains(Some(found))
            <==> is_candidate_on(index, schedule, calls, days, zone, mode, id, found),
{
    let all = index.on_days(schedule, schedule.trips@[id], calls, days, zone, mode);
    if all.contains(Some(found)) {
        let i = choose|i: int| 0 <= i < all.len() && all[i] == Some(found);
        assert(index.is_running(schedule, schedule.trips@[id].service_id@, days[i]));
    }
    if is_candidate_on(index, schedule, calls, days, zone, mode, id, found) {
        let i = choose|i: int|
            {
                &&& 0 <= i < days.len()
                &&& index.is_running(schedule, schedule.trips@[id].service_id@, #[trigger] days[i])
                &&& scoring::candidate_of(
                    schedule.trips@[id],
                    calls,
                    Some(days[i]),
                    Some((days[i], zone)),
                    index.canonical_stop_ids@,
                    mode,
                ) == Some(found)
            };
        assert(all[i] == Some(found));
    }
}

proof fn trips_are_candidates(
    index: GtfsMatchIndex,
    schedule: Gtfs,
    ids: Seq<Seq<char>>,
    calls: Seq<Call>,
    days: Seq<i32>,
    zone: Seq<char>,
    mode: StopMatchMode,
    found: Candidate,
)
    ensures
        matching::candidates_of_trips(index, schedule, ids, calls, days, zone, mode).contains(
            Some(found),
        ) <==> exists|i: int|
            0 <= i < ids.len() && is_candidate_on(
                index,
                schedule,
                calls,
                days,
                zone,
                mode,
                #[trigger] ids[i],
                found,
            ),
    decreases ids.len(),
{
    let all = matching::candidates_of_trips(index, schedule, ids, calls, days, zone, mode);
    if ids.len() > 0 {
        let rest = ids.drop_last();
        let n = rest.len() as int;
        let front = matching::candidates_of_trips(index, schedule, rest, calls, days, zone, mode);
        let here = index.on_days(schedule, schedule.trips@[ids[n]], calls, days, zone, mode);
        trips_are_candidates(index, schedule, rest, calls, days, zone, mode, found);
        if schedule.trips@.contains_key(ids[n]) {
            on_days_are_candidates(index, schedule, calls, days, zone, mode, ids[n], found);
            assert(all == front + here);
        }
        if all.contains(Some(found)) {
            let k = choose|k: int| 0 <= k < all.len() && all[k] == Some(found);
            if k < front.len() {
                assert(front[k] == Some(found));
                assert(front.contains(Some(found)));
                let i = choose|i: int|
                    0 <= i < rest.len() && is_candidate_on(
                        index,
                        schedule,
                        calls,
                        days,
                        zone,
                        mode,
                        #[trigger] rest[i],
                        found,
                    );
                assert(ids[i] == rest[i]);
            } else {
                assert(here[k - front.len()] == Some(found));
                assert(here.contains(Some(found)));
                assert(is_candidate_on(index, schedule, calls, days, zone, mode, ids[n], found));
            }
        }
        if exists|i: int|
            0 <= i < ids.len() && is_candidate_on(
                index,
                schedule,
                calls,
                days,
                zone,
                mode,
                #[trigger] ids[i],
                found,
            ) {
            let i = choose|i: int|
                0 <= i < ids.len() && is_candidate_on(
                    index,
                    schedule,
                    calls,
                    days,
                    zone,
                    mode,
                    #[trigger] ids[i],
                    found,
                );
            if i < n {
                assert(rest[i] == ids[i]);
                assert(front.contains(Some(found)));
                let k = choose|k: int| 0 <= k < front.len() && front[k] == Some(found);
                assert(all[k] == Some(found));
            } else {
                let k = choose|k: int| 0 <= k < here.len() && here[k] == Some(found);
                assert(all[front.len() + k] == Some(found));
            }
        }
    }
}

proof fn patterns_are_candidates(
    index: GtfsMatchIndex,
    schedule: Gtfs,
    patterns: Seq<Pattern>,
    calls: Seq<Call>,
    days: Seq<i32>,
    zone: Seq<char>,
    mode: StopMatchMode,
    found: Candidate,
)
    ensures
        matching::candidates_of_patterns(
            index,
            schedule,
            patterns,
            calls,
            days,
            zone,
            mode,
        ).contains(Some(found)) <==> exists|p: int|
            0 <= p < patterns.len() && scoring::calls_fit(
                calls,
                (#[trigger] patterns[p]).stops,
                index.canonical_stop_ids@,
                mode,
            ) && matching::candidates_of_trips(
                index,
                schedule,
                patterns[p].trips,
                calls,
                days,
                zone,
                mode,
            ).contains(Some(found)),
    decreases patterns.len(),
{
    let all = matching::candidates_of_patterns(
        index,
        schedule,
        patterns,
        calls,
        days,
        zone,
        mode,
    );
    if patterns.len() > 0 {
        let rest = patterns.drop_last();
        let n = rest.len() as int;
        let front = matching::candidates_of_patterns(
            index,
            schedule,
            rest,
            calls,
            days,
            zone,
            mode,
        );
        let here = matching::candidates_of_trips(
            index,
            schedule,
            patterns[n].trips,
            calls,
            days,
            zone,
            mode,
        );
        let fits = scoring::calls_fit(calls, patterns[n].stops, index.canonical_stop_ids@, mode);
        patterns_are_candidates(index, schedule, rest, calls, days, zone, mode, found);
        if fits {
            assert(all == front + here);
        }
        if all.contains(Some(found)) {
            let k = choose|k: int| 0 <= k < all.len() && all[k] == Some(found);
            if k < front.len() {
                assert(front[k] == Some(found));
                assert(front.contains(Some(found)));
                let p = choose|p: int|
                    0 <= p < rest.len() && scoring::calls_fit(
                        calls,
                        (#[trigger] rest[p]).stops,
                        index.canonical_stop_ids@,
                        mode,
                    ) && matching::candidates_of_trips(
                        index,
                        schedule,
                        rest[p].trips,
                        calls,
                        days,
                        zone,
                        mode,
                    ).contains(Some(found));
                assert(patterns[p] == rest[p]);
            } else {
                assert(here[k - front.len()] == Some(found));
                assert(here.contains(Some(found)));
                assert(patterns[n] == patterns.last());
            }
        }
        if exists|p: int|
            0 <= p < patterns.len() && scoring::calls_fit(
                calls,
                (#[trigger] patterns[p]).stops,
                index.canonical_stop_ids@,
                mode,
            ) && matching::candidates_of_trips(
                index,
                schedule,
                patterns[p].trips,
                calls,
                days,
                zone,
                mode,
            ).contains(Some(found)) {
            let p = choose|p: int|
                0 <= p < patterns.len() && scoring::calls_fit(
                    calls,
                    (#[trigger] patterns[p]).stops,
                    index.canonical_stop_ids@,
                    mode,
                ) && matching::candidates_of_trips(
                    index,
                    schedule,
                    patterns[p].trips,
                    calls,
                    days,
                    zone,
                    mode,
                ).contains(Some(found));
            if p < n {
                assert(rest[p] == patterns[p]);
                assert(front.contains(Some(found)));
                let k = choose|k: int| 0 <= k < front.len() && front[k] == Some(found);
                assert(all[k] == Some(found));
            } else {
                let k = choose|k: int| 0 <= k < here.len() && here[k] == Some(found);
                assert(all[front.len() + k] == Some(found));
            }
        }
    }
}

proof fn candidates_are_weighed(
    index: GtfsMatchIndex,
    schedule: Gtfs,
    route: Seq<char>,
    to: Seq<Seq<char>>,
    calls: Seq<Call>,
    zone: Seq<char>,
    mode: StopMatchMode,
    found: Candidate,
)
    requires
        matching::is_index_of(index, schedule),
        matching::days_of(calls, zone) is Some,
    ensures
        matching::candidates_of_patterns(
            index,
            schedule,
            matching::aimed_patterns(
                index,
                directions::patterns_at(index.directions@, route),
                to,
            ),
            calls,
            matching::days_of(calls, zone)->0,
            zone,
            mode,
        ).contains(Some(found)) <==> exists|id: Seq<char>| #[trigger]
            is_weighed(index, schedule, route, to, calls, zone, mode, id, found),
{
    let patterns = directions::patterns_at(index.directions@, route);
    let aimed = matching::aimed_patterns(index, patterns, to);
    let days = matching::days_of(calls, zone)->0;
    let all = matching::candidates_of_patterns(index, schedule, aimed, calls, days, zone, mode);
    let stations = index.canonical_stop_ids@;
    patterns_are_candidates(index, schedule, aimed, calls, days, zone, mode, found);
    assert forall|id: Seq<char>| #[trigger] is_on_route(schedule, route, id) implies (
    is_candidate_on(index, schedule, calls, days, zone, mode, id, found) <==> exists|day: i32|
        {
            &&& #[trigger] is_service_day(calls, zone, day)
            &&& index.is_running(schedule, schedule.trips@[id].service_id@, day)
            &&& scoring::candidate_of(
                schedule.trips@[id],
                calls,
                Some(day),
                Some((day, zone)),
                stations,
                mode,
            ) == Some(found)
        }) by {
        if is_candidate_on(index, schedule, calls, days, zone, mode, id, found) {
            let i = choose|i: int|
                {
                    &&& 0 <= i < days.len()
                    &&& index.is_running(
                        schedule,
                        schedule.trips@[id].service_id@,
                        #[trigger] days[i],
                    )
                    &&& scoring::candidate_of(
                        schedule.trips@[id],
                        calls,
                        Some(days[i]),
                        Some((days[i], zone)),
                        stations,
                        mode,
                    ) == Some(found)
                };
            assert(days.contains(days[i]));
            days_are_those_of_the_first_time(calls, zone, days[i]);
            assert(is_service_day(calls, zone, days[i]));
        }
        if exists|day: i32|
            {
                &&& #[trigger] is_service_day(calls, zone, day)
                &&& index.is_running(schedule, schedule.trips@[id].service_id@, day)
                &&& scoring::candidate_of(
                    schedule.trips@[id],
                    calls,
                    Some(day),
                    Some((day, zone)),
                    stations,
                    mode,
                ) == Some(found)
            } {
            let day = choose|day: i32|
                {
                    &&& #[trigger] is_service_day(calls, zone, day)
                    &&& index.is_running(schedule, schedule.trips@[id].service_id@, day)
                    &&& scoring::candidate_of(
                        schedule.trips@[id],
                        calls,
                        Some(day),
                        Some((day, zone)),
                        stations,
                        mode,
                    ) == Some(found)
                };
            days_are_those_of_the_first_time(calls, zone, day);
            let i = choose|i: int| 0 <= i < days.len() && days[i] == day;
            assert(index.is_running(schedule, schedule.trips@[id].service_id@, days[i]));
        }
    }
    if all.contains(Some(found)) {
        let a = choose|a: int|
            0 <= a < aimed.len() && scoring::calls_fit(
                calls,
                (#[trigger] aimed[a]).stops,
                stations,
                mode,
            ) && matching::candidates_of_trips(
                index,
                schedule,
                aimed[a].trips,
                calls,
                days,
                zone,
                mode,
            ).contains(Some(found));
        trips_are_candidates(
            index,
            schedule,
            aimed[a].trips,
            calls,
            days,
            zone,
            mode,
            found,
        );
        let trips = aimed[a].trips;
        let i = choose|i: int|
            0 <= i < trips.len() && is_candidate_on(
                index,
                schedule,
                calls,
                days,
                zone,
                mode,
                #[trigger] trips[i],
                found,
            );
        matching_laws::aimed_are_patterns(index, patterns, to, a);
        let p = choose|p: int| 0 <= p < patterns.len() && patterns[p] == aimed[a];
        assert(aimed.contains(aimed[a]));
        assert(patterns[p].trips.contains(trips[i]));
        aimed_are_sought(index, schedule, route, to, p, trips[i]);
        assert(is_on_route(schedule, route, trips[i]));
        assert(is_weighed(index, schedule, route, to, calls, zone, mode, trips[i], found));
    }
    if exists|id: Seq<char>| #[trigger]
        is_weighed(index, schedule, route, to, calls, zone, mode, id, found) {
        let id = choose|id: Seq<char>| #[trigger]
            is_weighed(index, schedule, route, to, calls, zone, mode, id, found);
        assert(is_on_route(schedule, route, id));
        let p = pattern_of_trip(index, schedule, route, id);
        aimed_are_sought(index, schedule, route, to, p, id);
        let a = choose|a: int| 0 <= a < aimed.len() && aimed[a] == patterns[p];
        let trips = aimed[a].trips;
        trips_are_candidates(index, schedule, trips, calls, days, zone, mode, found);
        let i = choose|i: int| 0 <= i < trips.len() && trips[i] == id;
        assert(is_candidate_on(index, schedule, calls, days, zone, mode, trips[i], found));
        let day = choose|day: i32|
            {
                &&& #[trigger] is_service_day(calls, zone, day)
                &&& index.is_running(schedule, schedule.trips@[id].service_id@, day)
                &&& scoring::candidate_of(
                    schedule.trips@[id],
                    calls,
                    Some(day),
                    Some((day, zone)),
                    stations,
                    mode,
                ) == Some(found)
            };
        let trip = schedule.trips@[id];
        assert(trip.stop_times.len() == trip.stop_times@.len());
        scoring::candidate_is_an_alignment(
            trip,
            calls,
            Some(day),
            Some((day, zone)),
            stations,
            mode,
        );
        assert(scoring::calls_fit(calls, aimed[a].stops, stations, mode));
    }
}

/// Whether one candidate is worse than another: its differences are more in the mean; or as much,
/// and more at the most; or as much, and fewer; or as many, and its service day is earlier; or the
/// same, and its trip comes later by identifier.
pub open spec fn is_worse(a: Candidate, b: Candidate) -> bool {
    ||| a.mean > b.mean
    ||| a.mean == b.mean && a.most > b.most
    ||| a.mean == b.mean && a.most == b.most && a.count < b.count
    ||| a.mean == b.mean && a.most == b.most && a.count == b.count && a.day < b.day
    ||| a.mean == b.mean && a.most == b.most && a.count == b.count && a.day == b.day
        && text::text_less(b.trip_id, a.trip_id)
}

/// Whether a match is the one that a candidate makes.
pub open spec fn is_match_by(found: Match, candidate: Candidate, kind: MatchKind) -> bool {
    &&& found.trip_id == candidate.trip_id
    &&& found.day == Some(candidate.day)
    &&& found.kind == kind
    &&& found.mean == Some(candidate.mean)
    &&& found.at == candidate.at
    &&& found.by_station == candidate.by_station
}

/// Whether a trip is weighed in a mode.
pub open spec fn one_is_weighed(
    index: GtfsMatchIndex,
    schedule: Gtfs,
    route: Seq<char>,
    to: Seq<Seq<char>>,
    calls: Seq<Call>,
    zone: Seq<char>,
    mode: StopMatchMode,
) -> bool {
    exists|id: Seq<char>, found: Candidate| #[trigger]
        is_weighed(index, schedule, route, to, calls, zone, mode, id, found)
}

/// Whether a match is the best of those that are weighed in a mode.
pub open spec fn is_best(
    index: GtfsMatchIndex,
    schedule: Gtfs,
    route: Seq<char>,
    to: Seq<Seq<char>>,
    calls: Seq<Call>,
    zone: Seq<char>,
    mode: StopMatchMode,
    found: Match,
) -> bool {
    exists|id: Seq<char>, best: Candidate|
        {
            &&& #[trigger] is_weighed(index, schedule, route, to, calls, zone, mode, id, best)
            &&& is_match_by(found, best, MatchKind::DirectionAndTime)
            &&& forall|other: Seq<char>, least: Candidate| #[trigger]
                is_weighed(index, schedule, route, to, calls, zone, mode, other, least)
                    ==> !is_worse(best, least)
        }
}

proof fn foremost_is_best(
    index: GtfsMatchIndex,
    schedule: Gtfs,
    route: Seq<char>,
    to: Seq<Seq<char>>,
    calls: Seq<Call>,
    zone: Seq<char>,
    mode: StopMatchMode,
)
    requires
        matching::is_index_of(index, schedule),
        matching::days_of(calls, zone) is Some,
    ensures
        ({
            let all = matching::candidates_of_patterns(
                index,
                schedule,
                matching::aimed_patterns(
                    index,
                    directions::patterns_at(index.directions@, route),
                    to,
                ),
                calls,
                matching::days_of(calls, zone)->0,
                zone,
                mode,
            );
            let top = scoring::foremost(all);
            &&& top is Some <==> one_is_weighed(index, schedule, route, to, calls, zone, mode)
            &&& top is Some ==> is_best(
                index,
                schedule,
                route,
                to,
                calls,
                zone,
                mode,
                matching::match_of(top->0, MatchKind::DirectionAndTime),
            )
        }),
{
    let all = matching::candidates_of_patterns(
        index,
        schedule,
        matching::aimed_patterns(index, directions::patterns_at(index.directions@, route), to),
        calls,
        matching::days_of(calls, zone)->0,
        zone,
        mode,
    );
    let top = scoring::foremost(all);
    scoring::foremost_is_not_beaten(all);
    assert forall|id: Seq<char>, found: Candidate| #[trigger]
        is_weighed(
            index,
            schedule,
            route,
            to,
            calls,
            zone,
            mode,
            id,
            found,
        ) implies top is Some && !is_worse(top->0, found) by {
        candidates_are_weighed(index, schedule, route, to, calls, zone, mode, found);
        let k = choose|k: int| 0 <= k < all.len() && all[k] == Some(found);
        assert(all[k] is Some);
    }
    if top is Some {
        let best = top->0;
        candidates_are_weighed(index, schedule, route, to, calls, zone, mode, best);
        let id = choose|id: Seq<char>| #[trigger]
            is_weighed(index, schedule, route, to, calls, zone, mode, id, best);
        assert(is_match_by(
            matching::match_of(best, MatchKind::DirectionAndTime),
            best,
            MatchKind::DirectionAndTime,
        ));
        assert(is_weighed(index, schedule, route, to, calls, zone, mode, id, best));
    }
}

/// The stops that the destination of a journey may mean.
pub open spec fn stops_of_destination(index: GtfsMatchIndex, journey: Journey) -> Seq<Seq<char>> {
    if journey.destination is Some {
        stops::meant_stops(index.stop_ids_by_suffix@, journey.destination->0)
    } else {
        seq![]
    }
}

/// The law of the strict match by direction and time: a journey without a match by name, of a line
/// and with a time, has one exactly if a trip is weighed, by the same stops or by the same
/// stations; it is then the best of those that are weighed by the same stops, and only where there
/// are none, of those that are weighed by the same stations.
pub proof fn strict_match_is_the_best(
    index: GtfsMatchIndex,
    schedule: Gtfs,
    journey: Journey,
    route: Seq<char>,
)
    requires
        matching::is_index_of(index, schedule),
        matching::route_of(journey) == Some(route),
        index.exact_match(schedule, journey, index.observed(journey)) is None,
    ensures
        ({
            let calls = index.observed(journey);
            let zone = services::zone_at(index.route_timezones@, route);
            let to = stops_of_destination(index, journey);
            let found = index.journey_match(schedule, journey);
            let exact = one_is_weighed(
                index,
                schedule,
                route,
                to,
                calls,
                zone,
                StopMatchMode::Exact,
            );
            let nearby = one_is_weighed(
                index,
                schedule,
                route,
                to,
                calls,
                zone,
                StopMatchMode::ParentStation,
            );
            &&& found is Ok <==> exact || nearby
            &&& found matches Ok(m) ==> is_best(
                index,
                schedule,
                route,
                to,
                calls,
                zone,
                if exact {
                    StopMatchMode::Exact
                } else {
                    StopMatchMode::ParentStation
                },
                m,
            )
        }),
{
    let calls = index.observed(journey);
    let zone = services::zone_at(index.route_timezones@, route);
    let to = matching::destinations_of(index, journey);
    assert(to == stops_of_destination(index, journey));
    let exact = StopMatchMode::Exact;
    let nearby = StopMatchMode::ParentStation;
    earliest_is_first(calls);
    if matching::days_of(calls, zone) is Some {
        foremost_is_best(index, schedule, route, to, calls, zone, exact);
        foremost_is_best(index, schedule, route, to, calls, zone, nearby);
    }
    assert forall|mode: StopMatchMode, id: Seq<char>, found: Candidate| #[trigger]
        is_weighed(index, schedule, route, to, calls, zone, mode, id, found) implies calls.len() > 0
        && matching::has_time(calls) && index.directions@.contains_key(route) && matching::days_of(
        calls,
        zone,
    ) is Some by {
        let day = choose|day: i32| #[trigger] is_service_day(calls, zone, day);
        days_are_those_of_the_first_time(calls, zone, day);
        let p = pattern_of_trip(index, schedule, route, id);
        assert(directions::patterns_at(index.directions@, route).len() > 0);
    }
}

/// The law of success: a journey that gives a time, and whose calls have an alignment with a trip
/// of its line that is sought, runs on one of the service days and is due at every stop on it,
/// always has a strict match.
pub proof fn timed_journeys_are_matched(
    index: GtfsMatchIndex,
    schedule: Gtfs,
    journey: Journey,
    route: Seq<char>,
    id: Seq<char>,
    day: i32,
    mode: StopMatchMode,
)
    requires
        matching::is_index_of(index, schedule),
        matching::route_of(journey) == Some(route),
        is_sought(index, schedule, route, stops_of_destination(index, journey), id),
        is_service_day(
            index.observed(journey),
            services::zone_at(index.route_timezones@, route),
            day,
        ),
        index.is_running(schedule, schedule.trips@[id].service_id@, day),
        scoring::is_fully_timed(
            schedule.trips@[id],
            day,
            services::zone_at(index.route_timezones@, route),
        ),
        scoring::calls_fit(
            index.observed(journey),
            gtfs::trip_stops(schedule.trips@[id]),
            index.canonical_stop_ids@,
            mode,
        ),
    ensures
        index.journey_match(schedule, journey) is Ok,
{
    let calls = index.observed(journey);
    let zone = services::zone_at(index.route_timezones@, route);
    let to = stops_of_destination(index, journey);
    let trip = schedule.trips@[id];
    if index.exact_match(schedule, journey, calls) is None {
        strict_match_is_the_best(index, schedule, journey, route);
        assert(trip.stop_times.len() == trip.stop_times@.len());
        timed_trips_are_compared_by_every_time(
            trip,
            calls,
            day,
            zone,
            index.canonical_stop_ids@,
            mode,
        );
        let moment = choose|moment: i64| #[trigger] is_first_given(calls, moment);
        assert(is_given(calls, moment));
        let i = choose|i: int|
            0 <= i < calls.len() && ((#[trigger] calls[i]).arrival == Some(moment)
                || calls[i].departure == Some(moment));
        assert(calls[i].arrival is Some || calls[i].departure is Some);
        let found = scoring::candidate_of(
            trip,
            calls,
            Some(day),
            Some((day, zone)),
            index.canonical_stop_ids@,
            mode,
        )->0;
        assert(is_weighed(index, schedule, route, to, calls, zone, mode, id, found));
    }
}

/// The law of the nearest trip: where a journey without a match by name has an alignment by the
/// same stops with a trip that is sought, runs on a service day and is due at every stop on it, its
/// strict match is by the same stops too, and no further from the schedule in the mean.
pub proof fn strict_match_is_as_near_as_any(
    index: GtfsMatchIndex,
    schedule: Gtfs,
    journey: Journey,
    route: Seq<char>,
    id: Seq<char>,
    day: i32,
    other: Seq<usize>,
)
    requires
        matching::is_index_of(index, schedule),
        matching::route_of(journey) == Some(route),
        index.exact_match(schedule, journey, index.observed(journey)) is None,
        is_sought(index, schedule, route, stops_of_destination(index, journey), id),
        is_service_day(
            index.observed(journey),
            services::zone_at(index.route_timezones@, route),
            day,
        ),
        index.is_running(schedule, schedule.trips@[id].service_id@, day),
        scoring::is_fully_timed(
            schedule.trips@[id],
            day,
            services::zone_at(index.route_timezones@, route),
        ),
        alignment::is_alignment(
            scoring::indices(other),
            index.observed(journey).len() as int,
            schedule.trips@[id].stop_times@.len() as int,
            scoring::may_call_at(
                schedule.trips@[id],
                index.observed(journey),
                index.canonical_stop_ids@,
                StopMatchMode::Exact,
            ),
        ),
    ensures
        index.journey_match(schedule, journey) matches Ok(found) && !found.by_station
            && found.mean is Some && found.mean->0 <= scoring::cost_of(
            other,
            scoring::cost_at(
                schedule.trips@[id],
                index.observed(journey),
                Some((day, services::zone_at(index.route_timezones@, route))),
            ),
        ).total / scoring::cost_of(
            other,
            scoring::cost_at(
                schedule.trips@[id],
                index.observed(journey),
                Some((day, services::zone_at(index.route_timezones@, route))),
            ),
        ).count,
{
    let calls = index.observed(journey);
    let zone = services::zone_at(index.route_timezones@, route);
    let to = stops_of_destination(index, journey);
    let trip = schedule.trips@[id];
    let mode = StopMatchMode::Exact;
    let stations = index.canonical_stop_ids@;
    assert(trip.stop_times.len() == trip.stop_times@.len());
    assert(gtfs::trip_stops(trip).len() == trip.stop_times@.len());
    assert(scoring::calls_fit(calls, gtfs::trip_stops(trip), stations, mode));
    timed_journeys_are_matched(index, schedule, journey, route, id, day, mode);
    timed_trips_are_compared_by_every_time(trip, calls, day, zone, stations, mode);
    strict_match_is_the_best(index, schedule, journey, route);
    let moment = choose|moment: i64| #[trigger] is_first_given(calls, moment);
    assert(is_given(calls, moment));
    let i = choose|i: int|
        0 <= i < calls.len() && ((#[trigger] calls[i]).arrival == Some(moment)
            || calls[i].departure == Some(moment));
    assert(calls[i].arrival is Some || calls[i].departure is Some);
    let here = scoring::candidate_of(
        trip,
        calls,
        Some(day),
        Some((day, zone)),
        stations,
        mode,
    )->0;
    assert(is_weighed(index, schedule, route, to, calls, zone, mode, id, here));
    scoring::timed_candidate_is_nearest(trip, calls, day, zone, stations, mode, other);
    let found = index.journey_match(schedule, journey)->Ok_0;
    let (best_id, best) = choose|best_id: Seq<char>, best: Candidate|
        {
            &&& #[trigger] is_weighed(index, schedule, route, to, calls, zone, mode, best_id, best)
            &&& is_match_by(found, best, MatchKind::DirectionAndTime)
            &&& forall|o: Seq<char>, least: Candidate| #[trigger]
                is_weighed(index, schedule, route, to, calls, zone, mode, o, least) ==> !is_worse(
                    best,
                    least,
                )
        };
    assert(!is_worse(best, here));
    let best_trip = schedule.trips@[best_id];
    assert(best_trip.stop_times.len() == best_trip.stop_times@.len());
    let d = choose|d: i32|
        {
            &&& #[trigger] is_service_day(calls, zone, d)
            &&& index.is_running(schedule, best_trip.service_id@, d)
            &&& scoring::candidate_of(best_trip, calls, Some(d), Some((d, zone)), stations, mode)
                == Some(best)
        };
    candidates_hold_their_differences(best_trip, calls, d, zone, stations, mode);
}

/// Whether one of the sought trips has an alignment with the calls.
pub open spec fn one_is_aligned(
    index: GtfsMatchIndex,
    schedule: Gtfs,
    route: Seq<char>,
    to: Seq<Seq<char>>,
    calls: Seq<Call>,
    mode: StopMatchMode,
) -> bool {
    exists|id: Seq<char>| #[trigger]
        is_sought(index, schedule, route, to, id) && scoring::calls_fit(
            calls,
            gtfs::trip_stops(schedule.trips@[id]),
            index.canonical_stop_ids@,
            mode,
        )
}

/// Whether one of the sought trips has an alignment with the calls and runs on a service day.
pub open spec fn one_is_aligned_and_runs(
    index: GtfsMatchIndex,
    schedule: Gtfs,
    route: Seq<char>,
    to: Seq<Seq<char>>,
    calls: Seq<Call>,
    zone: Seq<char>,
    mode: StopMatchMode,
) -> bool {
    exists|id: Seq<char>, day: i32|
        #[trigger] is_sought(index, schedule, route, to, id) && #[trigger] is_service_day(
            calls,
            zone,
            day,
        ) && scoring::calls_fit(
            calls,
            gtfs::trip_stops(schedule.trips@[id]),
            index.canonical_stop_ids@,
            mode,
        ) && index.is_running(schedule, schedule.trips@[id].service_id@, day)
}

proof fn fitting_is_aligned(
    index: GtfsMatchIndex,
    schedule: Gtfs,
    route: Seq<char>,
    to: Seq<Seq<char>>,
    calls: Seq<Call>,
    zone: Seq<char>,
    mode: StopMatchMode,
)
    requires
        matching::is_index_of(index, schedule),
        matching::days_of(calls, zone) is Some,
    ensures
        ({
            let aimed = matching::aimed_patterns(
                index,
                directions::patterns_at(index.directions@, route),
                to,
            );
            &&& matching::one_fits(index, aimed, calls, mode) <==> one_is_aligned(
                index,
                schedule,
                route,
                to,
                calls,
                mode,
            )
            &&& matching::one_fits_and_runs(
                index,
                schedule,
                aimed,
                calls,
                matching::days_of(calls, zone)->0,
                mode,
            ) <==> one_is_aligned_and_runs(index, schedule, route, to, calls, zone, mode)
        }),
{
    let patterns = directions::patterns_at(index.directions@, route);
    let aimed = matching::aimed_patterns(index, patterns, to);
    let days = matching::days_of(calls, zone)->0;
    let stations = index.canonical_stop_ids@;
    if matching::one_fits(index, aimed, calls, mode) {
        let a = choose|a: int|
            0 <= a < aimed.len() && scoring::calls_fit(
                calls,
                (#[trigger] aimed[a]).stops,
                stations,
                mode,
            );
        matching_laws::aimed_are_patterns(index, patterns, to, a);
        let p = choose|p: int| 0 <= p < patterns.len() && patterns[p] == aimed[a];
        let id = patterns[p].trips[0];
        trips_of_pattern(index, schedule, route, p, id);
        assert(patterns[p].trips.contains(id));
        assert(aimed.contains(aimed[a]));
        aimed_are_sought(index, schedule, route, to, p, id);
        assert(is_sought(index, schedule, route, to, id));
    }
    if one_is_aligned(index, schedule, route, to, calls, mode) {
        let id = choose|id: Seq<char>| #[trigger]
            is_sought(index, schedule, route, to, id) && scoring::calls_fit(
                calls,
                gtfs::trip_stops(schedule.trips@[id]),
                stations,
                mode,
            );
        let p = pattern_of_trip(index, schedule, route, id);
        aimed_are_sought(index, schedule, route, to, p, id);
        let a = choose|a: int| 0 <= a < aimed.len() && aimed[a] == patterns[p];
        assert(scoring::calls_fit(calls, aimed[a].stops, stations, mode));
    }
    if matching::one_fits_and_runs(index, schedule, aimed, calls, days, mode) {
        let a = choose|a: int|
            0 <= a < aimed.len() && scoring::calls_fit(
                calls,
                (#[trigger] aimed[a]).stops,
                stations,
                mode,
            ) && matching::one_runs(index, schedule, aimed[a].trips, days);
        let trips = aimed[a].trips;
        let i = choose|i: int|
            0 <= i < trips.len() && schedule.trips@.contains_key(#[trigger] trips[i])
                && index.runs_on_one(schedule, schedule.trips@[trips[i]].service_id@, days);
        let id = trips[i];
        let d = choose|d: int|
            0 <= d < days.len() && index.is_running(
                schedule,
                schedule.trips@[id].service_id@,
                #[trigger] days[d],
            );
        matching_laws::aimed_are_patterns(index, patterns, to, a);
        let p = choose|p: int| 0 <= p < patterns.len() && patterns[p] == aimed[a];
        assert(patterns[p].trips.contains(id));
        assert(aimed.contains(aimed[a]));
        trips_of_pattern(index, schedule, route, p, id);
        aimed_are_sought(index, schedule, route, to, p, id);
        assert(days.contains(days[d]));
        days_are_those_of_the_first_time(calls, zone, days[d]);
        assert(is_sought(index, schedule, route, to, id) && is_service_day(
            calls,
            zone,
            days[d],
        ));
    }
    if one_is_aligned_and_runs(index, schedule, route, to, calls, zone, mode) {
        let (id, day) = choose|id: Seq<char>, day: i32|
            #[trigger] is_sought(index, schedule, route, to, id) && #[trigger] is_service_day(
                calls,
                zone,
                day,
            ) && scoring::calls_fit(
                calls,
                gtfs::trip_stops(schedule.trips@[id]),
                stations,
                mode,
            ) && index.is_running(schedule, schedule.trips@[id].service_id@, day);
        let p = pattern_of_trip(index, schedule, route, id);
        aimed_are_sought(index, schedule, route, to, p, id);
        let a = choose|a: int| 0 <= a < aimed.len() && aimed[a] == patterns[p];
        days_are_those_of_the_first_time(calls, zone, day);
        let d = choose|d: int| 0 <= d < days.len() && days[d] == day;
        assert(index.is_running(schedule, schedule.trips@[id].service_id@, days[d]));
        let trips = aimed[a].trips;
        let i = choose|i: int| 0 <= i < trips.len() && trips[i] == id;
        assert(schedule.trips@.contains_key(trips[i]));
        assert(index.runs_on_one(schedule, schedule.trips@[trips[i]].service_id@, days));
        assert(scoring::calls_fit(calls, aimed[a].stops, stations, mode));
    }
}

/// The law of misses: a journey without a strict match is missed for the first of these that holds:
/// no call is at a known stop; none gives a time; its line is not told; no trip of the line has
/// stops; none that is sought has an alignment with the calls; none that has runs on a service day;
/// none that does can be compared by a time.
pub proof fn misses_have_their_reasons(
    index: GtfsMatchIndex,
    schedule: Gtfs,
    journey: Journey,
    reason: MatchMissReason,
)
    requires
        matching::is_index_of(index, schedule),
        index.journey_match(schedule, journey) == Err::<Match, MatchMissReason>(reason),
    ensures
        ({
            let calls = index.observed(journey);
            let to = stops_of_destination(index, journey);
            let timed = exists|i: int|
                0 <= i < calls.len() && ((#[trigger] calls[i]).arrival is Some
                    || calls[i].departure is Some);
            if calls.len() == 0 {
                reason == MatchMissReason::NoObservedCalls
            } else if !timed {
                reason == MatchMissReason::NoUsableTimes
            } else if matching::route_of(journey) is None {
                reason == MatchMissReason::MissingLineRef
            } else {
                let route = matching::route_of(journey)->0;
                let zone = services::zone_at(index.route_timezones@, route);
                let exact = StopMatchMode::Exact;
                let nearby = StopMatchMode::ParentStation;
                if !(exists|id: Seq<char>| #[trigger] is_on_route(schedule, route, id)) {
                    reason == MatchMissReason::RouteNotFound
                } else if matching::days_of(calls, zone) is None {
                    reason == MatchMissReason::NoUsableTimes
                } else if !one_is_aligned(index, schedule, route, to, calls, exact)
                    && !one_is_aligned(index, schedule, route, to, calls, nearby) {
                    reason == MatchMissReason::NoStopAlignment
                } else if !one_is_aligned_and_runs(
                    index,
                    schedule,
                    route,
                    to,
                    calls,
                    zone,
                    exact,
                ) && !one_is_aligned_and_runs(index, schedule, route, to, calls, zone, nearby) {
                    reason == MatchMissReason::InactiveServiceDate
                } else {
                    reason == MatchMissReason::NoTimeComparisons
                }
            }
        }),
{
    let calls = index.observed(journey);
    let to = stops_of_destination(index, journey);
    assert(to == matching::destinations_of(index, journey));
    if let Some(route) = matching::route_of(journey) {
        let zone = services::zone_at(index.route_timezones@, route);
        let patterns = directions::patterns_at(index.directions@, route);
        if matching::days_of(calls, zone) is Some {
            fitting_is_aligned(
                index,
                schedule,
                route,
                to,
                calls,
                zone,
                StopMatchMode::Exact,
            );
            fitting_is_aligned(
                index,
                schedule,
                route,
                to,
                calls,
                zone,
                StopMatchMode::ParentStation,
            );
        }
        if index.directions@.contains_key(route) {
            let id = patterns[0].trips[0];
            trips_of_pattern(index, schedule, route, 0, id);
            assert(patterns[0].trips.contains(id));
            assert(is_on_route(schedule, route, id));
        } else {
            assert forall|id: Seq<char>| !(#[trigger] is_on_route(schedule, route, id)) by {
                if is_on_route(schedule, route, id) {
                    let p = pattern_of_trip(index, schedule, route, id);
                    assert(patterns.len() > 0);
                }
            }
        }
    }
}

/// Whether a trip is named by a key: by its identifier, or by the last segment of that.
pub open spec fn is_named(key: Seq<char>, id: Seq<char>) -> bool {
    id == key || text::last_segment(id) == key
}

/// Whether a trip is named by a journey: by its key and of its line, if the line is told.
pub open spec fn is_named_on_line(schedule: Gtfs, journey: Journey, id: Seq<char>) -> bool {
    &&& matching::key_of(journey) is Some
    &&& schedule.trips.keys().contains(id)
    &&& is_named(matching::key_of(journey)->0, id)
    &&& matching::route_of(journey) matches Some(route) ==> schedule.trips@.contains_key(id)
        && schedule.trips@[id].route_id@ == route
}

/// Whether a trip ends at the station of a destination of a journey.
pub open spec fn ends_by_destination(
    index: GtfsMatchIndex,
    schedule: Gtfs,
    journey: Journey,
    id: Seq<char>,
) -> bool {
    &&& schedule.trips@.contains_key(id)
    &&& schedule.trips@[id].stop_times@.len() > 0
    &&& is_by_there(
        index.canonical_stop_ids@,
        stops_of_destination(index, journey),
        end_of(schedule, id),
    )
}

/// The law of names: the trips that a journey may be by its name are those that it names on its
/// line; of these, if any of them do, only those that end at the station of its destination.
pub proof fn named_trips_are_those(
    index: GtfsMatchIndex,
    schedule: Gtfs,
    journey: Journey,
    id: Seq<char>,
)
    requires
        matching::is_index_of(index, schedule),
    ensures
        index.named_ids(schedule, journey).contains(id) <==> is_named_on_line(
            schedule,
            journey,
            id,
        ) && (ends_by_destination(index, schedule, journey, id) || !(exists|other: Seq<char>|
            #[trigger] is_named_on_line(schedule, journey, other) && ends_by_destination(
                index,
                schedule,
                journey,
                other,
            ))),
{
    let to = stops_of_destination(index, journey);
    assert(to == matching::destinations_of(index, journey));
    if let Some(key) = matching::key_of(journey) {
        let ids = schedule.trips.keys();
        let named = lists::list_at(index.exact_trip_ids@, key);
        let by_name = matching::named_by(key);
        let of_line = matching::of_route(schedule.trips@, matching::route_of(journey));
        let bound = matching::ends_at(index, schedule.trips@, to);
        assert(named == ids.filter(by_name));
        let on_line = named.filter(of_line);
        assert forall|x: Seq<char>| on_line.contains(x) <==> #[trigger] is_named_on_line(
            schedule,
            journey,
            x,
        ) by {
            filtered(ids, by_name, x);
            filtered(named, of_line, x);
        }
        assert forall|x: Seq<char>| bound(x) <==> #[trigger] ends_by_destination(
            index,
            schedule,
            journey,
            x,
        ) by {
            if schedule.trips@.contains_key(x) && schedule.trips@[x].stop_times@.len() > 0 {
                destinations_by_name(index, to, end_of(schedule, x));
            }
        }
        filtered(on_line, bound, id);
        if on_line.filter(bound).len() > 0 {
            let i = choose|i: int| 0 <= i < on_line.len() && bound(#[trigger] on_line[i]);
            assert(on_line.contains(on_line[i]));
            assert(is_named_on_line(schedule, journey, on_line[i]));
            assert(ends_by_destination(index, schedule, journey, on_line[i]));
        }
        if exists|other: Seq<char>| #[trigger]
            is_named_on_line(schedule, journey, other) && ends_by_destination(
                index,
                schedule,
                journey,
                other,
            ) {
            let other = choose|other: Seq<char>| #[trigger]
                is_named_on_line(schedule, journey, other) && ends_by_destination(
                    index,
                    schedule,
                    journey,
                    other,
                );
            assert(on_line.contains(other));
            let i = choose|i: int| 0 <= i < on_line.len() && on_line[i] == other;
            assert(bound(on_line[i]));
        }
        assert(ends_by_destination(index, schedule, journey, id) || !ends_by_destination(
            index,
            schedule,
            journey,
            id,
        ));
        assert(is_named_on_line(schedule, journey, id) || !is_named_on_line(
            schedule,
            journey,
            id,
        ));
        if to.len() == 0 {
            assert forall|x: Seq<char>| !(#[trigger] ends_by_destination(
                index,
                schedule,
                journey,
                x,
            )) by {}
        }
    }
}

/// The law of matches by name: a match is by name exactly if one of the trips that the journey may
/// be by its name is a candidate on a service day, or the first of them has an alignment with its
/// calls; it is then one of these trips. Any other match is by direction and time.
pub proof fn named_journeys_are_matched_by_name(
    index: GtfsMatchIndex,
    schedule: Gtfs,
    journey: Journey,
)
    requires
        matching::is_index_of(index, schedule),
        schedule.trips.valid(),
    ensures
        ({
            let calls = index.observed(journey);
            let ids = index.named_ids(schedule, journey);
            let stations = index.canonical_stop_ids@;
            &&& ids.len() > 0 && calls.len() > 0 && (scoring::calls_fit(
                calls,
                gtfs::trip_stops(schedule.trips@[ids[0]]),
                stations,
                StopMatchMode::Exact,
            ) || scoring::calls_fit(
                calls,
                gtfs::trip_stops(schedule.trips@[ids[0]]),
                stations,
                StopMatchMode::ParentStation,
            )) ==> index.journey_match(schedule, journey) is Ok && index.journey_match(
                schedule,
                journey,
            )->Ok_0.kind == MatchKind::ExactId
            &&& index.journey_match(schedule, journey) matches Ok(found) ==> (found.kind
                == MatchKind::ExactId ==> exists|i: int|
                0 <= i < ids.len() && (found.trip_id == #[trigger] ids[i] || found.trip_id
                    == schedule.trips@[ids[i]].id@))
            &&& ids.len() == 0 ==> (index.journey_match(schedule, journey) matches Ok(found)
                ==> found.kind == MatchKind::DirectionAndTime)
        }),
{
    let calls = index.observed(journey);
    let ids = index.named_ids(schedule, journey);
    let all = index.candidates(schedule, ids, calls);
    table::table_keys(&schedule.trips);
    scoring::foremost_is_not_beaten(all);
    if ids.len() > 0 {
        assert(ids.contains(ids[0]));
        named_trips_are_those(index, schedule, journey, ids[0]);
        let trip = schedule.trips@[ids[0]];
        assert(trip.stop_times.len() == trip.stop_times@.len());
        scoring::undated_candidate_is_earliest(
            trip,
            calls,
            index.canonical_stop_ids@,
            StopMatchMode::Exact,
        );
        scoring::undated_candidate_is_earliest(
            trip,
            calls,
            index.canonical_stop_ids@,
            StopMatchMode::ParentStation,
        );
    }
    if scoring::foremost(all) is Some {
        let i = choose|i: int| 0 <= i < all.len() && all[i] == scoring::foremost(all);
        let trip = schedule.trips@[ids[i]];
        matching_laws::trip_candidate_is_sound(
            index,
            schedule,
            trip,
            calls,
            services::zone_at(index.route_timezones@, trip.route_id@),
        );
        assert(schedule.trips@[ids[i]].id@ == scoring::foremost(all)->0.trip_id);
    }
    if index.exact_match(schedule, journey, calls) is None {
        if let Ok(found) = matching::direction_match(index, schedule, journey, calls) {
            assert(found.kind == MatchKind::DirectionAndTime);
        }
    }
}

} // verus!
