//! What holds of every match.

use crate::alignment;
use crate::directions::{self, Pattern};
use crate::gtfs::{Gtfs, Trip};
use crate::lists;
use crate::matching::{self, GtfsMatchIndex, Match};
use crate::scoring::{self, Call, Candidate};
use crate::services;
use crate::siri_models::Journey;
use crate::stops::StopMatchMode;
use vstd::prelude::*;

verus! {

/// How stops were compared, by whether stations were.
pub open spec fn mode_of(by_station: bool) -> StopMatchMode {
    if by_station {
        StopMatchMode::ParentStation
    } else {
        StopMatchMode::Exact
    }
}

/// Whether `at` puts the calls at stops of a trip that they may be at, in order.
pub open spec fn are_seats(
    index: GtfsMatchIndex,
    trip: Trip,
    calls: Seq<Call>,
    at: Seq<usize>,
    by_station: bool,
) -> bool {
    alignment::is_alignment(
        scoring::indices(at),
        calls.len() as int,
        trip.stop_times@.len() as int,
        scoring::may_call_at(trip, calls, index.canonical_stop_ids@, mode_of(by_station)),
    )
}

/// Whether a candidate is a trip on a day on which it runs, with the calls at its stops in order.
pub open spec fn is_sound(
    index: GtfsMatchIndex,
    schedule: Gtfs,
    trip: Trip,
    calls: Seq<Call>,
    found: Candidate,
) -> bool {
    &&& found.trip_id == trip.id@
    &&& index.is_running(schedule, trip.service_id@, found.day)
    &&& are_seats(index, trip, calls, found.at, found.by_station)
}

/// Whether a candidate is sound as one of the given trips.
pub open spec fn is_sound_among(
    index: GtfsMatchIndex,
    schedule: Gtfs,
    ids: Seq<Seq<char>>,
    calls: Seq<Call>,
    found: Candidate,
) -> bool {
    exists|i: int|
        0 <= i < ids.len() && schedule.trips@.contains_key(#[trigger] ids[i]) && is_sound(
            index,
            schedule,
            schedule.trips@[ids[i]],
            calls,
            found,
        )
}

proof fn on_days_is_sound(
    index: GtfsMatchIndex,
    schedule: Gtfs,
    trip: Trip,
    calls: Seq<Call>,
    days: Seq<i32>,
    zone: Seq<char>,
    mode: StopMatchMode,
    i: int,
)
    requires
        0 <= i < days.len(),
        index.on_days(schedule, trip, calls, days, zone, mode)[i] is Some,
    ensures
        is_sound(
            index,
            schedule,
            trip,
            calls,
            index.on_days(schedule, trip, calls, days, zone, mode)[i]->0,
        ),
        index.on_days(schedule, trip, calls, days, zone, mode)[i]->0.by_station == (mode
            == StopMatchMode::ParentStation),
{
    assert(trip.stop_times.len() == trip.stop_times@.len());
    scoring::candidate_is_an_alignment(
        trip,
        calls,
        Some(days[i]),
        Some((days[i], zone)),
        index.canonical_stop_ids@,
        mode,
    );
}

proof fn best_on_days_is_sound(
    index: GtfsMatchIndex,
    schedule: Gtfs,
    trip: Trip,
    calls: Seq<Call>,
    days: Seq<i32>,
    zone: Seq<char>,
    mode: StopMatchMode,
)
    ensures
        scoring::foremost(index.on_days(schedule, trip, calls, days, zone, mode)) matches Some(
            found,
        ) ==> is_sound(index, schedule, trip, calls, found),
{
    let all = index.on_days(schedule, trip, calls, days, zone, mode);
    scoring::foremost_is_not_beaten(all);
    if scoring::foremost(all) is Some {
        let i = choose|i: int| 0 <= i < all.len() && all[i] == scoring::foremost(all);
        on_days_is_sound(index, schedule, trip, calls, days, zone, mode, i);
    }
}

/// The candidate that a trip is, if any, is sound.
pub proof fn trip_candidate_is_sound(
    index: GtfsMatchIndex,
    schedule: Gtfs,
    trip: Trip,
    calls: Seq<Call>,
    zone: Seq<char>,
)
    ensures
        index.trip_candidate(schedule, trip, calls, zone) matches Some(found) ==> is_sound(
            index,
            schedule,
            trip,
            calls,
            found,
        ),
{
    if let Some(days) = matching::days_of(calls, zone) {
        best_on_days_is_sound(index, schedule, trip, calls, days, zone, StopMatchMode::Exact);
        best_on_days_is_sound(
            index,
            schedule,
            trip,
            calls,
            days,
            zone,
            StopMatchMode::ParentStation,
        );
    }
}

proof fn candidates_of_trips_are_sound(
    index: GtfsMatchIndex,
    schedule: Gtfs,
    ids: Seq<Seq<char>>,
    calls: Seq<Call>,
    days: Seq<i32>,
    zone: Seq<char>,
    mode: StopMatchMode,
)
    ensures
        forall|k: int|
            0 <= k < matching::candidates_of_trips(
                index,
                schedule,
                ids,
                calls,
                days,
                zone,
                mode,
            ).len() ==> (#[trigger] matching::candidates_of_trips(
                index,
                schedule,
                ids,
                calls,
                days,
                zone,
                mode,
            )[k] matches Some(found) ==> is_sound_among(index, schedule, ids, calls, found)),
    decreases ids.len(),
{
    if ids.len() > 0 {
        let front = ids.drop_last();
        let before = matching::candidates_of_trips(
            index,
            schedule,
            front,
            calls,
            days,
            zone,
            mode,
        );
        let all = matching::candidates_of_trips(index, schedule, ids, calls, days, zone, mode);
        candidates_of_trips_are_sound(index, schedule, front, calls, days, zone, mode);
        assert forall|k: int|
            0 <= k < all.len() && #[trigger] all[k] is Some implies is_sound_among(
            index,
            schedule,
            ids,
            calls,
            all[k]->0,
        ) by {
            let found = all[k]->0;
            if k < before.len() {
                assert(all[k] == before[k]);
                let i = choose|i: int|
                    0 <= i < front.len() && schedule.trips@.contains_key(#[trigger] front[i])
                        && is_sound(index, schedule, schedule.trips@[front[i]], calls, found);
                assert(ids[i] == front[i]);
            } else {
                let trip = schedule.trips@[ids.last()];
                on_days_is_sound(
                    index,
                    schedule,
                    trip,
                    calls,
                    days,
                    zone,
                    mode,
                    k - before.len(),
                );
                assert(ids[ids.len() - 1] == ids.last());
            }
        }
    }
}

/// Whether a candidate is sound as a trip of one of the patterns.
pub open spec fn is_sound_in(
    index: GtfsMatchIndex,
    schedule: Gtfs,
    patterns: Seq<Pattern>,
    calls: Seq<Call>,
    found: Candidate,
) -> bool {
    exists|p: int|
        0 <= p < patterns.len() && is_sound_among(
            index,
            schedule,
            (#[trigger] patterns[p]).trips,
            calls,
            found,
        )
}

proof fn candidates_of_patterns_are_sound(
    index: GtfsMatchIndex,
    schedule: Gtfs,
    patterns: Seq<Pattern>,
    calls: Seq<Call>,
    days: Seq<i32>,
    zone: Seq<char>,
    mode: StopMatchMode,
)
    ensures
        forall|k: int|
            0 <= k < matching::candidates_of_patterns(
                index,
                schedule,
                patterns,
                calls,
                days,
                zone,
                mode,
            ).len() ==> (#[trigger] matching::candidates_of_patterns(
                index,
                schedule,
                patterns,
                calls,
                days,
                zone,
                mode,
            )[k] matches Some(found) ==> is_sound_in(index, schedule, patterns, calls, found)),
    decreases patterns.len(),
{
    if patterns.len() > 0 {
        let front = patterns.drop_last();
        let last = patterns.last();
        let before = matching::candidates_of_patterns(
            index,
            schedule,
            front,
            calls,
            days,
            zone,
            mode,
        );
        let all = matching::candidates_of_patterns(
            index,
            schedule,
            patterns,
            calls,
            days,
            zone,
            mode,
        );
        candidates_of_patterns_are_sound(index, schedule, front, calls, days, zone, mode);
        candidates_of_trips_are_sound(index, schedule, last.trips, calls, days, zone, mode);
        assert forall|k: int|
            0 <= k < all.len() && #[trigger] all[k] is Some implies is_sound_in(
            index,
            schedule,
            patterns,
            calls,
            all[k]->0,
        ) by {
            let found = all[k]->0;
            if k < before.len() {
                assert(all[k] == before[k]);
                let p = choose|p: int|
                    0 <= p < front.len() && is_sound_among(
                        index,
                        schedule,
                        (#[trigger] front[p]).trips,
                        calls,
                        found,
                    );
                assert(patterns[p] == front[p]);
            } else {
                let here = matching::candidates_of_trips(
                    index,
                    schedule,
                    last.trips,
                    calls,
                    days,
                    zone,
                    mode,
                );
                assert(all[k] == here[k - before.len()]);
                assert(patterns[patterns.len() - 1] == last);
            }
        }
    }
}

proof fn best_in_patterns_is_sound(
    index: GtfsMatchIndex,
    schedule: Gtfs,
    patterns: Seq<Pattern>,
    calls: Seq<Call>,
    days: Seq<i32>,
    zone: Seq<char>,
    mode: StopMatchMode,
)
    ensures
        scoring::foremost(
            matching::candidates_of_patterns(
                index,
                schedule,
                patterns,
                calls,
                days,
                zone,
                mode,
            ),
        ) matches Some(found) ==> is_sound_in(index, schedule, patterns, calls, found),
{
    let all = matching::candidates_of_patterns(
        index,
        schedule,
        patterns,
        calls,
        days,
        zone,
        mode,
    );
    candidates_of_patterns_are_sound(index, schedule, patterns, calls, days, zone, mode);
    scoring::foremost_is_not_beaten(all);
    if scoring::foremost(all) is Some {
        let k = choose|k: int| 0 <= k < all.len() && all[k] == scoring::foremost(all);
        assert(all[k] is Some);
    }
}

/// Whether a match is the trip under `id`: of the line of the journey if that is known, with the
/// calls at its stops in order, and running on its service day if times were compared.
pub open spec fn is_match_with(
    index: GtfsMatchIndex,
    schedule: Gtfs,
    journey: Journey,
    id: Seq<char>,
    found: Match,
) -> bool {
    &&& schedule.trips@.contains_key(id)
    &&& found.trip_id == id || found.trip_id == schedule.trips@[id].id@
    &&& matching::route_of(journey) matches Some(route) ==> schedule.trips@[id].route_id@ == route
    &&& are_seats(
        index,
        schedule.trips@[id],
        index.observed(journey),
        found.at,
        found.by_station,
    )
    &&& found.mean is Some ==> found.day is Some && index.is_running(
        schedule,
        schedule.trips@[id].service_id@,
        found.day->0,
    )
}

proof fn named_trips_hold(
    index: GtfsMatchIndex,
    schedule: Gtfs,
    journey: Journey,
    id: Seq<char>,
)
    requires
        index.named_ids(schedule, journey).contains(id),
        matching::route_of(journey) is Some,
    ensures
        schedule.trips@.contains_key(id),
        schedule.trips@[id].route_id@ == matching::route_of(journey)->0,
{
    let key = matching::key_of(journey)->0;
    let named = lists::list_at(index.exact_trip_ids@, key);
    let on_line_pred = matching::of_route(schedule.trips@, matching::route_of(journey));
    let on_line = named.filter(on_line_pred);
    let bound_pred = matching::ends_at(
        index,
        schedule.trips@,
        matching::destinations_of(index, journey),
    );
    broadcast use vstd::seq_lib::group_filter_ensures;

    if !on_line.contains(id) {
        on_line.lemma_filter_contains_rev(bound_pred, id);
    }
    let i = choose|i: int| 0 <= i < on_line.len() && on_line[i] == id;
    assert(on_line_pred(on_line[i]));
}

proof fn exact_match_holds(
    index: GtfsMatchIndex,
    schedule: Gtfs,
    journey: Journey,
)
    ensures
        index.exact_match(schedule, journey, index.observed(journey)) matches Some(found)
            ==> exists|id: Seq<char>| #[trigger]
            is_match_with(index, schedule, journey, id, found),
{
    let calls = index.observed(journey);
    let ids = index.named_ids(schedule, journey);
    let all = index.candidates(schedule, ids, calls);
    scoring::foremost_is_not_beaten(all);
    if let Some(found) = index.exact_match(schedule, journey, calls) {
        if scoring::foremost(all) is Some {
            let i = choose|i: int| 0 <= i < all.len() && all[i] == scoring::foremost(all);
            let trip = schedule.trips@[ids[i]];
            trip_candidate_is_sound(
                index,
                schedule,
                trip,
                calls,
                services::zone_at(index.route_timezones@, trip.route_id@),
            );
            assert(ids.contains(ids[i]));
            if matching::route_of(journey) is Some {
                named_trips_hold(index, schedule, journey, ids[i]);
            }
            assert(is_match_with(index, schedule, journey, ids[i], found));
        } else {
            let trip = schedule.trips@[ids[0]];
            assert(trip.stop_times.len() == trip.stop_times@.len());
            scoring::candidate_is_an_alignment(
                trip,
                calls,
                None,
                None,
                index.canonical_stop_ids@,
                StopMatchMode::Exact,
            );
            scoring::candidate_is_an_alignment(
                trip,
                calls,
                None,
                None,
                index.canonical_stop_ids@,
                StopMatchMode::ParentStation,
            );
            assert(ids.contains(ids[0]));
            if matching::route_of(journey) is Some {
                named_trips_hold(index, schedule, journey, ids[0]);
            }
            assert(is_match_with(index, schedule, journey, ids[0], found));
        }
    }
}

/// What is looked through is one of the patterns.
pub proof fn aimed_are_patterns(
    index: GtfsMatchIndex,
    patterns: Seq<Pattern>,
    destinations: Seq<Seq<char>>,
    p: int,
)
    requires
        0 <= p < matching::aimed_patterns(index, patterns, destinations).len(),
    ensures
        patterns.contains(matching::aimed_patterns(index, patterns, destinations)[p]),
{
    broadcast use vstd::seq_lib::group_filter_ensures;

    let aimed = matching::aimed_patterns(index, patterns, destinations);
    let one = aimed[p];
    let exact = matching::ends_exactly(destinations);
    let nearby = matching::ends_nearby(index, destinations);
    if patterns.filter(exact).contains(one) {
        patterns.lemma_filter_contains_rev(exact, one);
    }
    if patterns.filter(nearby).contains(one) {
        patterns.lemma_filter_contains_rev(nearby, one);
    }
    assert(aimed.contains(one));
}

/// The law of matches: a match is a trip of the schedule, of the line of the journey where that is
/// known; every observed call is at one of its stops, in order; and where times were compared, the
/// trip runs on the service day.
pub proof fn match_holds(index: GtfsMatchIndex, schedule: Gtfs, journey: Journey)
    requires
        matching::is_index_of(index, schedule),
    ensures
        index.journey_match(schedule, journey) matches Ok(found) ==> exists|id: Seq<char>|
            #[trigger]
            is_match_with(index, schedule, journey, id, found),
{
    let calls = index.observed(journey);
    exact_match_holds(index, schedule, journey);
    if index.exact_match(schedule, journey, calls) is None {
        if let Ok(found) = matching::direction_match(index, schedule, journey, calls) {
            let route = matching::route_of(journey)->0;
            let zone = services::zone_at(index.route_timezones@, route);
            let patterns = directions::patterns_at(index.directions@, route);
            let destinations = matching::destinations_of(index, journey);
            let aimed = matching::aimed_patterns(index, patterns, destinations);
            let days = matching::days_of(calls, zone)->0;
            let exact = StopMatchMode::Exact;
            let nearby = StopMatchMode::ParentStation;
            best_in_patterns_is_sound(index, schedule, aimed, calls, days, zone, exact);
            best_in_patterns_is_sound(index, schedule, aimed, calls, days, zone, nearby);
            let first = scoring::foremost(
                matching::candidates_of_patterns(
                    index,
                    schedule,
                    aimed,
                    calls,
                    days,
                    zone,
                    exact,
                ),
            );
            let second = scoring::foremost(
                matching::candidates_of_patterns(
                    index,
                    schedule,
                    aimed,
                    calls,
                    days,
                    zone,
                    nearby,
                ),
            );
            let best = if first is Some {
                first->0
            } else {
                second->0
            };
            assert(is_sound_in(index, schedule, aimed, calls, best));
            let p = choose|p: int|
                0 <= p < aimed.len() && is_sound_among(
                    index,
                    schedule,
                    (#[trigger] aimed[p]).trips,
                    calls,
                    best,
                );
            let ids = aimed[p].trips;
            let i = choose|i: int|
                0 <= i < ids.len() && schedule.trips@.contains_key(#[trigger] ids[i]) && is_sound(
                    index,
                    schedule,
                    schedule.trips@[ids[i]],
                    calls,
                    best,
                );
            aimed_are_patterns(index, patterns, destinations, p);
            let q = choose|q: int| 0 <= q < patterns.len() && patterns[q] == aimed[p];
            assert(directions::is_direction(patterns[q], route, schedule.trips@));
            assert(ids.contains(ids[i]));
            assert(is_match_with(index, schedule, journey, ids[i], found));
        }
    }
}

/// The law of precision: a match by direction puts calls at stops of the same station only where
/// no trip agrees with the calls by the same stops.
pub proof fn stations_are_a_last_resort(
    index: GtfsMatchIndex,
    schedule: Gtfs,
    patterns: Seq<Pattern>,
    calls: Seq<Call>,
    days: Seq<i32>,
    zone: Seq<char>,
)
    requires
        matching::match_in(index, schedule, patterns, calls, days, zone) is Ok,
        matching::match_in(index, schedule, patterns, calls, days, zone)->Ok_0.by_station,
    ensures
        forall|k: int|
            0 <= k < matching::candidates_of_patterns(
                index,
                schedule,
                patterns,
                calls,
                days,
                zone,
                StopMatchMode::Exact,
            ).len() ==> #[trigger] matching::candidates_of_patterns(
                index,
                schedule,
                patterns,
                calls,
                days,
                zone,
                StopMatchMode::Exact,
            )[k] is None,
{
    let exact = matching::candidates_of_patterns(
        index,
        schedule,
        patterns,
        calls,
        days,
        zone,
        StopMatchMode::Exact,
    );
    scoring::foremost_is_not_beaten(exact);
    candidates_know_their_mode(
        index,
        schedule,
        patterns,
        calls,
        days,
        zone,
        StopMatchMode::Exact,
    );
    if scoring::foremost(exact) is Some {
        let k = choose|k: int| 0 <= k < exact.len() && exact[k] == scoring::foremost(exact);
        assert(exact[k] is Some);
    }
}

proof fn candidates_know_their_mode(
    index: GtfsMatchIndex,
    schedule: Gtfs,
    patterns: Seq<Pattern>,
    calls: Seq<Call>,
    days: Seq<i32>,
    zone: Seq<char>,
    mode: StopMatchMode,
)
    ensures
        forall|k: int|
            0 <= k < matching::candidates_of_patterns(
                index,
                schedule,
                patterns,
                calls,
                days,
                zone,
                mode,
            ).len() ==> (#[trigger] matching::candidates_of_patterns(
                index,
                schedule,
                patterns,
                calls,
                days,
                zone,
                mode,
            )[k] matches Some(found) ==> found.by_station == (mode
                == StopMatchMode::ParentStation)),
    decreases patterns.len(),
{
    if patterns.len() > 0 {
        candidates_know_their_mode(
            index,
            schedule,
            patterns.drop_last(),
            calls,
            days,
            zone,
            mode,
        );
        trip_candidates_know_their_mode(
            index,
            schedule,
            patterns.last().trips,
            calls,
            days,
            zone,
            mode,
        );
    }
}

proof fn trip_candidates_know_their_mode(
    index: GtfsMatchIndex,
    schedule: Gtfs,
    ids: Seq<Seq<char>>,
    calls: Seq<Call>,
    days: Seq<i32>,
    zone: Seq<char>,
    mode: StopMatchMode,
)
    ensures
        forall|k: int|
            0 <= k < matching::candidates_of_trips(
                index,
                schedule,
                ids,
                calls,
                days,
                zone,
                mode,
            ).len() ==> (#[trigger] matching::candidates_of_trips(
                index,
                schedule,
                ids,
                calls,
                days,
                zone,
                mode,
            )[k] matches Some(found) ==> found.by_station == (mode
                == StopMatchMode::ParentStation)),
    decreases ids.len(),
{
    if ids.len() > 0 {
        trip_candidates_know_their_mode(
            index,
            schedule,
            ids.drop_last(),
            calls,
            days,
            zone,
            mode,
        );
    }
}

} // verus!
