//! What holds of the match of a journey by the trip that it names, and of scores.

use crate::alignment;
use crate::clock;
use crate::gtfs::{self, Gtfs};
use crate::lists;
use crate::matching::{self, GtfsMatchIndex, Match, MatchKind};
use crate::scoring::{self, Call, Candidate, Score};
use crate::services;
use crate::siri_models::Journey;
use crate::stops::StopMatchMode;
use crate::strict_laws;
use crate::table;
use crate::text;
use crate::time_laws;
use vstd::prelude::*;

verus! {

/// Whether positions tell where the values of one list stand in another, in order.
pub open spec fn are_places<A>(places: Seq<int>, part: Seq<A>, all: Seq<A>) -> bool {
    &&& places.len() == part.len()
    &&& forall|i: int|
        0 <= i < places.len() ==> 0 <= #[trigger] places[i] < all.len() && all[places[i]] == part[i]
    &&& forall|i: int, j: int|
        0 <= i < j < places.len() ==> #[trigger] places[i] < #[trigger] places[j]
}

/// A filter leaves its values in order.
pub proof fn filter_places<A>(s: Seq<A>, f: spec_fn(A) -> bool) -> (places: Seq<int>)
    ensures
        are_places(places, s.filter(f), s),
    decreases s.len(),
{
    reveal(Seq::filter);
    if s.len() == 0 {
        seq![]
    } else {
        let front = filter_places(s.drop_last(), f);
        let n = s.len() - 1;
        assert forall|i: int| 0 <= i < front.len() implies 0 <= #[trigger] front[i] < n by {}
        if f(s.last()) {
            let places = front.push(n);
            assert(s.filter(f) == s.drop_last().filter(f).push(s.last()));
            places
        } else {
            front
        }
    }
}

proof fn places_of_places<A>(
    inner: Seq<int>,
    outer: Seq<int>,
    part: Seq<A>,
    middle: Seq<A>,
    all: Seq<A>,
) -> (places: Seq<int>)
    requires
        are_places(inner, part, middle),
        are_places(outer, middle, all),
    ensures
        are_places(places, part, all),
{
    let places = Seq::new(inner.len(), |i: int| outer[inner[i]]);
    assert forall|i: int| 0 <= i < places.len() implies 0 <= #[trigger] places[i] < all.len()
        && all[places[i]] == part[i] by {
        assert(0 <= inner[i] < middle.len());
        assert(0 <= outer[inner[i]] < all.len());
    }
    assert forall|i: int, j: int| 0 <= i < j < places.len() implies #[trigger] places[i]
        < #[trigger] places[j] by {
        assert(inner[i] < inner[j]);
        assert(0 <= inner[i] && inner[j] < middle.len());
        assert(outer[inner[i]] < outer[inner[j]]);
    }
    places
}

/// The law of names: the trips that a journey may be by its name stand in the order of the schedule.
pub proof fn named_trips_keep_their_order(
    index: GtfsMatchIndex,
    schedule: Gtfs,
    journey: Journey,
)
    requires
        matching::is_index_of(index, schedule),
    ensures
        exists|places: Seq<int>| #[trigger]
            are_places(places, index.named_ids(schedule, journey), schedule.trips.keys()),
{
    let ids = index.named_ids(schedule, journey);
    let keys = schedule.trips.keys();
    if let Some(key) = matching::key_of(journey) {
        let to = matching::destinations_of(index, journey);
        let by_name = matching::named_by(key);
        let of_line = matching::of_route(schedule.trips@, matching::route_of(journey));
        let bound = matching::ends_at(index, schedule.trips@, to);
        let named = lists::list_at(index.exact_trip_ids@, key);
        assert(named == keys.filter(by_name));
        let on_line = named.filter(of_line);
        let a = filter_places(keys, by_name);
        let b = filter_places(named, of_line);
        let c = places_of_places(b, a, on_line, named, keys);
        if ids == on_line {
            assert(are_places(c, ids, keys));
        } else {
            let d = filter_places(on_line, bound);
            let e = places_of_places(d, c, ids, on_line, keys);
            assert(are_places(e, ids, keys));
        }
    } else {
        assert(are_places(seq![], ids, keys));
    }
}

/// Whether a trip that a journey may be by its name is the given candidate: it runs on a service
/// day, by the zone of its own route, and is that candidate on it.
pub open spec fn is_weighed_by_name(
    index: GtfsMatchIndex,
    schedule: Gtfs,
    journey: Journey,
    mode: StopMatchMode,
    id: Seq<char>,
    found: Candidate,
) -> bool {
    let calls = index.observed(journey);
    let zone = services::zone_at(index.route_timezones@, schedule.trips@[id].route_id@);
    &&& index.named_ids(schedule, journey).contains(id)
    &&& schedule.trips@.contains_key(id)
    &&& exists|day: i32|
        {
            &&& #[trigger] strict_laws::is_service_day(calls, zone, day)
            &&& index.is_running(schedule, schedule.trips@[id].service_id@, day)
            &&& scoring::candidate_of(
                schedule.trips@[id],
                calls,
                Some(day),
                Some((day, zone)),
                index.canonical_stop_ids@,
                mode,
            ) == Some(found)
        }
}

/// How a trip that a journey may be by its name is weighed: by the same stops, and only where it is
/// not by these, by the same stations.
pub open spec fn mode_of_trip(
    index: GtfsMatchIndex,
    schedule: Gtfs,
    journey: Journey,
    id: Seq<char>,
) -> StopMatchMode {
    if exists|c: Candidate| #[trigger]
        is_weighed_by_name(index, schedule, journey, StopMatchMode::Exact, id, c) {
        StopMatchMode::Exact
    } else {
        StopMatchMode::ParentStation
    }
}

/// Whether a candidate is the best of a trip that a journey may be by its name.
pub open spec fn is_best_of_trip(
    index: GtfsMatchIndex,
    schedule: Gtfs,
    journey: Journey,
    id: Seq<char>,
    found: Candidate,
) -> bool {
    let mode = mode_of_trip(index, schedule, journey, id);
    &&& is_weighed_by_name(index, schedule, journey, mode, id, found)
    &&& forall|c: Candidate| #[trigger]
        is_weighed_by_name(index, schedule, journey, mode, id, c) ==> !strict_laws::is_worse(
            found,
            c,
        )
}

proof fn trips_are_weighed_by_name(
    index: GtfsMatchIndex,
    schedule: Gtfs,
    journey: Journey,
    id: Seq<char>,
)
    requires
        index.named_ids(schedule, journey).contains(id),
        schedule.trips@.contains_key(id),
    ensures
        ({
            let trip = schedule.trips@[id];
            let found = index.trip_candidate(
                schedule,
                trip,
                index.observed(journey),
                services::zone_at(index.route_timezones@, trip.route_id@),
            );
            &&& found is Some <==> exists|mode: StopMatchMode, c: Candidate| #[trigger]
                is_weighed_by_name(index, schedule, journey, mode, id, c)
            &&& found is Some ==> is_best_of_trip(index, schedule, journey, id, found->0)
        }),
{
    let trip = schedule.trips@[id];
    let calls = index.observed(journey);
    let zone = services::zone_at(index.route_timezones@, trip.route_id@);
    let exact = StopMatchMode::Exact;
    let nearby = StopMatchMode::ParentStation;
    strict_laws::earliest_is_first(calls);
    if let Some(days) = matching::days_of(calls, zone) {
        assert forall|mode: StopMatchMode, c: Candidate| #[trigger]
            is_weighed_by_name(index, schedule, journey, mode, id, c) <==> index.on_days(
                schedule,
                trip,
                calls,
                days,
                zone,
                mode,
            ).contains(Some(c)) by {
            days_weigh(index, schedule, journey, mode, id, c, days);
        }
        let by_stops = index.on_days(schedule, trip, calls, days, zone, exact);
        let by_stations = index.on_days(schedule, trip, calls, days, zone, nearby);
        scoring::foremost_is_not_beaten(by_stops);
        scoring::foremost_is_not_beaten(by_stations);
        assert forall|c: Candidate| #[trigger]
            is_weighed_by_name(index, schedule, journey, exact, id, c) implies scoring::foremost(
            by_stops,
        ) is Some && !strict_laws::is_worse(scoring::foremost(by_stops)->0, c) by {
            let k = choose|k: int| 0 <= k < by_stops.len() && by_stops[k] == Some(c);
            assert(by_stops[k] is Some);
        }
        assert forall|c: Candidate| #[trigger]
            is_weighed_by_name(index, schedule, journey, nearby, id, c) implies scoring::foremost(
            by_stations,
        ) is Some && !strict_laws::is_worse(scoring::foremost(by_stations)->0, c) by {
            let k = choose|k: int| 0 <= k < by_stations.len() && by_stations[k] == Some(c);
            assert(by_stations[k] is Some);
        }
        if let Some(c) = scoring::foremost(by_stops) {
            assert(is_weighed_by_name(index, schedule, journey, exact, id, c));
        } else if let Some(c) = scoring::foremost(by_stations) {
            assert(is_weighed_by_name(index, schedule, journey, nearby, id, c));
        }
    } else {
        assert forall|mode: StopMatchMode, c: Candidate| !(#[trigger] is_weighed_by_name(
            index,
            schedule,
            journey,
            mode,
            id,
            c,
        )) by {
            if is_weighed_by_name(index, schedule, journey, mode, id, c) {
                let day = choose|day: i32| #[trigger]
                    strict_laws::is_service_day(calls, zone, day);
                strict_laws::days_are_those_of_the_first_time(calls, zone, day);
            }
        }
    }
}

proof fn days_weigh(
    index: GtfsMatchIndex,
    schedule: Gtfs,
    journey: Journey,
    mode: StopMatchMode,
    id: Seq<char>,
    c: Candidate,
    days: Seq<i32>,
)
    requires
        index.named_ids(schedule, journey).contains(id),
        schedule.trips@.contains_key(id),
        matching::days_of(
            index.observed(journey),
            services::zone_at(index.route_timezones@, schedule.trips@[id].route_id@),
        ) == Some(days),
    ensures
        is_weighed_by_name(index, schedule, journey, mode, id, c) <==> index.on_days(
            schedule,
            schedule.trips@[id],
            index.observed(journey),
            days,
            services::zone_at(index.route_timezones@, schedule.trips@[id].route_id@),
            mode,
        ).contains(Some(c)),
{
    let trip = schedule.trips@[id];
    let calls = index.observed(journey);
    let zone = services::zone_at(index.route_timezones@, trip.route_id@);
    strict_laws::on_days_are_candidates(index, schedule, calls, days, zone, mode, id, c);
    if is_weighed_by_name(index, schedule, journey, mode, id, c) {
        let day = choose|day: i32|
            {
                &&& #[trigger] strict_laws::is_service_day(calls, zone, day)
                &&& index.is_running(schedule, trip.service_id@, day)
                &&& scoring::candidate_of(
                    trip,
                    calls,
                    Some(day),
                    Some((day, zone)),
                    index.canonical_stop_ids@,
                    mode,
                ) == Some(c)
            };
        strict_laws::days_are_those_of_the_first_time(calls, zone, day);
        let i = choose|i: int| 0 <= i < days.len() && days[i] == day;
        assert(index.is_running(schedule, trip.service_id@, days[i]));
    }
    if strict_laws::is_candidate_on(index, schedule, calls, days, zone, mode, id, c) {
        let i = choose|i: int|
            {
                &&& 0 <= i < days.len()
                &&& index.is_running(schedule, trip.service_id@, #[trigger] days[i])
                &&& scoring::candidate_of(
                    trip,
                    calls,
                    Some(days[i]),
                    Some((days[i], zone)),
                    index.canonical_stop_ids@,
                    mode,
                ) == Some(c)
            };
        assert(days.contains(days[i]));
        strict_laws::days_are_those_of_the_first_time(calls, zone, days[i]);
        assert(strict_laws::is_service_day(calls, zone, days[i]));
    }
}

/// Whether a named trip is weighed at all.
pub open spec fn one_is_weighed_by_name(
    index: GtfsMatchIndex,
    schedule: Gtfs,
    journey: Journey,
) -> bool {
    exists|mode: StopMatchMode, id: Seq<char>, c: Candidate| #[trigger]
        is_weighed_by_name(index, schedule, journey, mode, id, c)
}

/// Whether a match is the best that the named trips make.
pub open spec fn is_best_by_name(
    index: GtfsMatchIndex,
    schedule: Gtfs,
    journey: Journey,
    found: Match,
) -> bool {
    exists|id: Seq<char>, best: Candidate|
        {
            &&& #[trigger] is_best_of_trip(index, schedule, journey, id, best)
            &&& strict_laws::is_match_by(found, best, MatchKind::ExactId)
            &&& forall|other: Seq<char>, c: Candidate| #[trigger]
                is_best_of_trip(index, schedule, journey, other, c) ==> !strict_laws::is_worse(
                    best,
                    c,
                )
        }
}

/// Whether a day is the last of the service days on which a service runs, if there is one.
pub open spec fn is_last_running(
    index: GtfsMatchIndex,
    schedule: Gtfs,
    service: Seq<char>,
    calls: Seq<Call>,
    zone: Seq<char>,
    day: Option<i32>,
) -> bool {
    match day {
        Some(d) => strict_laws::is_service_day(calls, zone, d) && index.is_running(
            schedule,
            service,
            d,
        ) && forall|other: i32| #[trigger]
            strict_laws::is_service_day(calls, zone, other) && index.is_running(
                schedule,
                service,
                other,
            ) ==> other <= d,
        None => forall|other: i32| #[trigger]
            strict_laws::is_service_day(calls, zone, other) ==> !index.is_running(
                schedule,
                service,
                other,
            ),
    }
}

/// Whether a match is that of a trip without a comparison of times: at the earliest stops, by the
/// same stops if the calls have an alignment with these, else by the same stations.
pub open spec fn is_match_without_times(
    index: GtfsMatchIndex,
    schedule: Gtfs,
    journey: Journey,
    id: Seq<char>,
    found: Match,
) -> bool {
    let trip = schedule.trips@[id];
    let calls = index.observed(journey);
    let stations = index.canonical_stop_ids@;
    let zone = services::zone_at(index.route_timezones@, trip.route_id@);
    let by_stops = scoring::calls_fit(
        calls,
        gtfs::trip_stops(trip),
        stations,
        StopMatchMode::Exact,
    );
    let mode = if by_stops {
        StopMatchMode::Exact
    } else {
        StopMatchMode::ParentStation
    };
    let may = scoring::may_call_at(trip, calls, stations, mode);
    &&& found.trip_id == id
    &&& found.kind == MatchKind::ExactId
    &&& found.mean is None
    &&& found.by_station <==> !by_stops
    &&& is_last_running(index, schedule, trip.service_id@, calls, zone, found.day)
    &&& alignment::is_alignment(
        scoring::indices(found.at),
        calls.len() as int,
        trip.stop_times@.len() as int,
        may,
    )
    &&& forall|other: Seq<int>, i: int|
        alignment::is_alignment(
            other,
            calls.len() as int,
            trip.stop_times@.len() as int,
            may,
        ) && 0 <= i < calls.len() ==> #[trigger] found.at[i] <= #[trigger] other[i]
}

proof fn first_running_is_the_last_day(
    index: GtfsMatchIndex,
    schedule: Gtfs,
    service: Seq<char>,
    days: Seq<i32>,
)
    requires
        forall|i: int, j: int|
            0 <= i < j < days.len() ==> #[trigger] days[i] > #[trigger] days[j],
    ensures
        matching::first_running(index, schedule, service, days) matches Some(d) ==> days.contains(d)
            && index.is_running(schedule, service, d) && forall|i: int|
            0 <= i < days.len() && index.is_running(schedule, service, #[trigger] days[i])
                ==> days[i] <= d,
        matching::first_running(index, schedule, service, days) is None ==> forall|i: int|
            0 <= i < days.len() ==> !index.is_running(schedule, service, #[trigger] days[i]),
    decreases days.len(),
{
    if days.len() > 0 {
        let rest = days.drop_first();
        assert forall|i: int| 0 <= i < rest.len() implies #[trigger] rest[i] == days[i + 1] by {}
        first_running_is_the_last_day(index, schedule, service, rest);
        let found = matching::first_running(index, schedule, service, days);
        if index.is_running(schedule, service, days[0]) {
            assert(days.contains(days[0]));
        } else {
            if let Some(d) = found {
                let k = choose|k: int| 0 <= k < rest.len() && rest[k] == d;
                assert(days[k + 1] == d);
                assert forall|i: int|
                    0 <= i < days.len() && index.is_running(
                        schedule,
                        service,
                        #[trigger] days[i],
                    ) implies days[i] <= d by {
                    assert(rest[i - 1] == days[i]);
                }
            } else {
                assert forall|i: int| 0 <= i < days.len() implies !index.is_running(
                    schedule,
                    service,
                    #[trigger] days[i],
                ) by {
                    if i > 0 {
                        assert(rest[i - 1] == days[i]);
                    }
                }
            }
        }
    }
}

proof fn inferred_day_is_the_last(
    index: GtfsMatchIndex,
    schedule: Gtfs,
    journey: Journey,
    id: Seq<char>,
)
    ensures
        ({
            let trip = schedule.trips@[id];
            let calls = index.observed(journey);
            let zone = services::zone_at(index.route_timezones@, trip.route_id@);
            is_last_running(
                index,
                schedule,
                trip.service_id@,
                calls,
                zone,
                index.inferred_day(schedule, trip, calls, zone),
            )
        }),
{
    let trip = schedule.trips@[id];
    let calls = index.observed(journey);
    let zone = services::zone_at(index.route_timezones@, trip.route_id@);
    let service = trip.service_id@;
    assert forall|day: i32| #[trigger]
        strict_laws::is_service_day(calls, zone, day) <==> matching::days_of(calls, zone) is Some
            && matching::days_of(calls, zone)->0.contains(day) by {
        strict_laws::days_are_those_of_the_first_time(calls, zone, day);
    }
    strict_laws::earliest_is_first(calls);
    if let Some(days) = matching::days_of(calls, zone) {
        let last = clock::zone_day(matching::earliest(calls)->0, zone)->0;
        time_laws::service_days_are_three(last);
        assert(days == clock::recent_days(last));
        assert forall|i: int, j: int| 0 <= i < j < days.len() implies #[trigger] days[i]
            > #[trigger] days[j] by {}
        first_running_is_the_last_day(index, schedule, service, days);
        if let Some(d) = matching::first_running(index, schedule, service, days) {
            assert forall|other: i32| #[trigger]
                strict_laws::is_service_day(calls, zone, other) && index.is_running(
                    schedule,
                    service,
                    other,
                ) implies other <= d by {
                let k = choose|k: int| 0 <= k < days.len() && days[k] == other;
                assert(index.is_running(schedule, service, days[k]));
            }
        } else {
            assert forall|other: i32| #[trigger]
                strict_laws::is_service_day(calls, zone, other) implies !index.is_running(
                schedule,
                service,
                other,
            ) by {
                let k = choose|k: int| 0 <= k < days.len() && days[k] == other;
                assert(!index.is_running(schedule, service, days[k]));
            }
        }
    }
}

proof fn seats_are_earliest(
    index: GtfsMatchIndex,
    schedule: Gtfs,
    journey: Journey,
    id: Seq<char>,
)
    ensures
        ({
            let trip = schedule.trips@[id];
            let calls = index.observed(journey);
            let stations = index.canonical_stop_ids@;
            let found = index.undated_match(schedule, id, trip, calls);
            &&& found is Some <==> calls.len() > 0 && (scoring::calls_fit(
                calls,
                gtfs::trip_stops(trip),
                stations,
                StopMatchMode::Exact,
            ) || scoring::calls_fit(
                calls,
                gtfs::trip_stops(trip),
                stations,
                StopMatchMode::ParentStation,
            ))
            &&& found is Some ==> is_match_without_times(index, schedule, journey, id, found->0)
        }),
{
    let trip = schedule.trips@[id];
    let calls = index.observed(journey);
    let stations = index.canonical_stop_ids@;
    let exact = StopMatchMode::Exact;
    let nearby = StopMatchMode::ParentStation;
    assert(trip.stop_times.len() == trip.stop_times@.len());
    scoring::undated_candidate_is_earliest(trip, calls, stations, exact);
    scoring::undated_candidate_is_earliest(trip, calls, stations, nearby);
    scoring::candidate_is_an_alignment(trip, calls, None, None, stations, exact);
    scoring::candidate_is_an_alignment(trip, calls, None, None, stations, nearby);
    inferred_day_is_the_last(index, schedule, journey, id);
}

/// The law of the match by name: where a trip that the journey may be by its name is weighed, it is
/// the best of these; else the first of these trips, without a comparison of times, if the calls
/// have an alignment with it; else there is none.
pub proof fn match_by_name_is_the_best(
    index: GtfsMatchIndex,
    schedule: Gtfs,
    journey: Journey,
)
    requires
        matching::is_index_of(index, schedule),
        schedule.trips.valid(),
    ensures
        ({
            let ids = index.named_ids(schedule, journey);
            let calls = index.observed(journey);
            let stations = index.canonical_stop_ids@;
            let stops = gtfs::trip_stops(schedule.trips@[ids[0]]);
            let found = index.exact_match(schedule, journey, calls);
            if one_is_weighed_by_name(index, schedule, journey) {
                found is Some && is_best_by_name(index, schedule, journey, found->0)
            } else if ids.len() > 0 && calls.len() > 0 && (scoring::calls_fit(
                calls,
                stops,
                stations,
                StopMatchMode::Exact,
            ) || scoring::calls_fit(calls, stops, stations, StopMatchMode::ParentStation)) {
                found is Some && is_match_without_times(
                    index,
                    schedule,
                    journey,
                    ids[0],
                    found->0,
                )
            } else {
                found is None
            }
        }),
        index.exact_match(schedule, journey, index.observed(journey)) matches Some(found)
            ==> index.journey_match(schedule, journey) == Ok::<Match, matching::MatchMissReason>(
            found,
        ),
{
    let ids = index.named_ids(schedule, journey);
    let calls = index.observed(journey);
    let all = index.candidates(schedule, ids, calls);
    let top = scoring::foremost(all);
    table::table_keys(&schedule.trips);
    scoring::foremost_is_not_beaten(all);
    assert forall|i: int| 0 <= i < ids.len() implies schedule.trips@.contains_key(
        #[trigger] ids[i],
    ) && ids.contains(ids[i]) by {
        strict_laws::named_trips_are_those(index, schedule, journey, ids[i]);
    }
    assert forall|mode: StopMatchMode, id: Seq<char>, c: Candidate| #[trigger]
        is_weighed_by_name(index, schedule, journey, mode, id, c) implies top is Some by {
        let i = choose|i: int| 0 <= i < ids.len() && ids[i] == id;
        trips_are_weighed_by_name(index, schedule, journey, id);
        assert(all[i] is Some);
    }
    if top is Some {
        let k = choose|k: int| 0 <= k < all.len() && all[k] == top;
        let id = ids[k];
        let best = top->0;
        trips_are_weighed_by_name(index, schedule, journey, id);
        assert(is_best_of_trip(index, schedule, journey, id, best));
        assert(one_is_weighed_by_name(index, schedule, journey));
        assert forall|other: Seq<char>, c: Candidate| #[trigger]
            is_best_of_trip(index, schedule, journey, other, c) implies !strict_laws::is_worse(
            best,
            c,
        ) by {
            let i = choose|i: int| 0 <= i < ids.len() && ids[i] == other;
            trips_are_weighed_by_name(index, schedule, journey, other);
            assert(all[i] is Some);
            best_of_trip_is_one(index, schedule, journey, other, all[i]->0, c);
        }
        let found = index.exact_match(schedule, journey, calls)->0;
        assert(strict_laws::is_match_by(found, best, MatchKind::ExactId));
    } else if ids.len() > 0 {
        seats_are_earliest(index, schedule, journey, ids[0]);
    }
}

/// Two candidates of one trip neither of which is worse than the other stand alike to a third.
proof fn best_of_trip_is_one(
    index: GtfsMatchIndex,
    schedule: Gtfs,
    journey: Journey,
    id: Seq<char>,
    a: Candidate,
    b: Candidate,
)
    requires
        is_best_of_trip(index, schedule, journey, id, a),
        is_best_of_trip(index, schedule, journey, id, b),
    ensures
        forall|c: Candidate| #[trigger]
            strict_laws::is_worse(c, b) ==> strict_laws::is_worse(c, a),
{
    assert(!strict_laws::is_worse(a, b) && !strict_laws::is_worse(b, a));
    text::text_order_total(a.trip_id, b.trip_id);
}

/// The law of scores: one without differences is not better than any; one with is better than one
/// without.
pub proof fn a_score_needs_differences(a: Score, b: Score)
    requires
        a.count >= 0,
        b.count >= 0,
    ensures
        a.count == 0 ==> !scoring::better(a, b),
        a.count > 0 && b.count == 0 ==> scoring::better(a, b),
{
}

/// The law of scores: what is less than some number in the mean is better than what is not.
pub proof fn less_in_the_mean_is_better(a: Score, b: Score, mean: int)
    requires
        a.count > 0,
        b.count > 0,
        a.total < mean * a.count,
        b.total >= mean * b.count,
    ensures
        scoring::better(a, b),
        !scoring::better(b, a),
{
    assert(a.total * b.count < b.total * a.count) by (nonlinear_arith)
        requires
            a.count > 0,
            b.count > 0,
            a.total < mean * a.count,
            b.total >= mean * b.count,
    ;
}

/// The law of scores: of two that are the same in the mean, the one whose greatest difference is
/// less is better, and of two that are the same in this too, the one with more differences.
pub proof fn the_same_in_the_mean_is_told_apart(a: Score, b: Score, mean: int)
    requires
        a.count > 0,
        b.count > 0,
        a.total == mean * a.count,
        b.total == mean * b.count,
    ensures
        a.most < b.most ==> scoring::better(a, b),
        a.most == b.most ==> (scoring::better(a, b) <==> a.count > b.count),
        a.most > b.most ==> !scoring::better(a, b),
{
    assert(a.total * b.count == b.total * a.count) by (nonlinear_arith)
        requires
            a.total == mean * a.count,
            b.total == mean * b.count,
    ;
}

/// The law of placements: of the stops that are as good for the last call, the earliest is taken.
pub proof fn earlier_stops_are_taken_first(
    calls: int,
    places: int,
    may: spec_fn(int, int) -> bool,
    cost: spec_fn(int, int) -> Score,
    stop: int,
)
    requires
        calls > 0,
        0 <= places <= usize::MAX,
        forall|i: int, j: int| (#[trigger] cost(i, j)).count >= 0,
        scoring::placement(calls, places, may, cost) is Some,
        0 <= stop < scoring::placement(calls, places, may, cost)->0.at.last(),
        may(calls - 1, stop),
        scoring::placement(calls - 1, stop, may, cost) is Some,
    ensures
        scoring::better(
            scoring::placement(calls, places, may, cost)->0.score,
            scoring::sum_of(
                scoring::placement(calls - 1, stop, may, cost)->0.score,
                cost(calls - 1, stop),
            ),
        ),
    decreases places,
{
    scoring::placement_is_an_alignment(calls, places, may, cost);
    let kept = scoring::placement(calls, places - 1, may, cost);
    let found = scoring::placement(calls, places, may, cost)->0;
    let front = scoring::placement(calls - 1, stop, may, cost)->0;
    let other = scoring::extended(front, stop, cost(calls - 1, stop));
    assert(scoring::indices(found.at)[calls - 1] < places);
    if kept == Some(found) {
        earlier_stops_are_taken_first(calls, places - 1, may, cost, stop);
    } else {
        scoring::placement_is_not_beaten(calls, places - 1, may, cost);
        scoring::placement_is_an_alignment(calls, places - 1, may, cost);
        scoring::placement_is_an_alignment(calls - 1, stop, may, cost);
        scoring::counts_are_natural(found.at, cost);
        scoring::counts_are_natural(kept->0.at, cost);
        scoring::counts_are_natural(front.at, cost);
        assert(stop < places - 1);
        assert(!scoring::better(other.score, kept->0.score));
        if !scoring::better(found.score, other.score) {
            scoring::not_better_is_transitive(found.score, other.score, kept->0.score);
        }
    }
}

} // verus!
