//! What holds of due moments, of distances between moments, of service days and of the times that
//! calls give.

use crate::adaptive_matching;
use crate::clock;
use crate::gtfs::{self, StopTime};
use crate::matching;
use crate::order;
use crate::processor;
use crate::siri_models::{self, EstimatedCall, Journey};
use crate::stops;
use vstd::prelude::*;

verus! {

/// How far two moments are from each other.
pub open spec fn apart(a: int, b: int) -> int {
    if a <= b {
        b - a
    } else {
        a - b
    }
}

/// Whether `distance` is that of `moment` from the nearest of `times`.
pub open spec fn is_least_distance(moment: int, times: Seq<i64>, distance: int) -> bool {
    &&& exists|k: int| 0 <= k < times.len() && apart(moment, #[trigger] times[k] as int) == distance
    &&& forall|k: int| 0 <= k < times.len() ==> distance <= apart(moment, #[trigger] times[k] as int)
}

/// The law of due moments: `seconds` after the start of a service day is so many whole days later
/// and so many seconds into that day, by the clocks of the zone; never outside the calendar.
pub proof fn due_moments(day: i32, seconds: u32, zone: Seq<char>)
    ensures
        -95_746_129 <= day && day + seconds / 86_400 <= 95_745_399 ==> clock::scheduled_times(
            day,
            seconds,
            zone,
        ) == clock::clock_times((day + seconds / 86_400) as i32, seconds % 86_400, zone),
        !(-95_746_129 <= day && day + seconds / 86_400 <= 95_745_399) ==> clock::scheduled_times(
            day,
            seconds,
            zone,
        ).len() == 0,
{
}

/// The law of distances: a moment has one from moments exactly if there are any, and it is that
/// from the nearest.
pub proof fn least_gap_is_the_distance(moment: int, times: Seq<i64>)
    ensures
        clock::least_gap(moment, times) is Some <==> times.len() > 0,
        clock::least_gap(moment, times) matches Some(d) ==> is_least_distance(moment, times, d),
    decreases times.len(),
{
    if times.len() > 0 {
        let front = times.drop_last();
        least_gap_is_the_distance(moment, front);
        let d = clock::least_gap(moment, times)->0;
        assert(times[times.len() - 1] == times.last());
        assert forall|k: int| 0 <= k < front.len() implies times[k] == front[k] by {}
        assert(exists|k: int|
            0 <= k < times.len() && apart(moment, #[trigger] times[k] as int) == d) by {
            if apart(moment, times[times.len() - 1] as int) != d {
                let f = clock::least_gap(moment, front)->0;
                let k = choose|k: int|
                    0 <= k < front.len() && apart(moment, #[trigger] front[k] as int) == f;
                assert(apart(moment, times[k] as int) == d);
            }
        }
    }
}

/// No two numbers are the least distance.
pub proof fn least_distance_is_one(moment: int, times: Seq<i64>, a: int, b: int)
    requires
        is_least_distance(moment, times, a),
        is_least_distance(moment, times, b),
    ensures
        a == b,
{
}

/// The law of delays: one is that against the nearest of the moments, against the first of those
/// that are as near.
pub proof fn delay_is_against_the_nearest(moment: int, times: Seq<i64>)
    ensures
        clock::nearest_delay(moment, times) is Some <==> times.len() > 0,
        clock::nearest_delay(moment, times) matches Some(d) ==> exists|k: int|
            {
                &&& 0 <= k < times.len()
                &&& d == moment - #[trigger] times[k]
                &&& forall|j: int|
                    0 <= j < times.len() ==> apart(moment, times[k] as int) <= apart(
                        moment,
                        #[trigger] times[j] as int,
                    )
                &&& forall|j: int|
                    0 <= j < k ==> apart(moment, times[k] as int) < apart(
                        moment,
                        #[trigger] times[j] as int,
                    )
            },
    decreases times.len(),
{
    if times.len() > 0 {
        let front = times.drop_last();
        let n = times.len() - 1;
        delay_is_against_the_nearest(moment, front);
        assert(times[n] == times.last());
        assert forall|k: int| 0 <= k < front.len() implies times[k] == front[k] by {}
        if let Some(f) = clock::nearest_delay(moment, front) {
            let k = choose|k: int|
                {
                    &&& 0 <= k < front.len()
                    &&& f == moment - #[trigger] front[k]
                    &&& forall|j: int|
                        0 <= j < front.len() ==> apart(moment, front[k] as int) <= apart(
                            moment,
                            #[trigger] front[j] as int,
                        )
                    &&& forall|j: int|
                        0 <= j < k ==> apart(moment, front[k] as int) < apart(
                            moment,
                            #[trigger] front[j] as int,
                        )
                };
            let d = clock::nearest_delay(moment, times)->0;
            if apart(moment, front[k] as int) <= apart(moment, times[n] as int) {
                assert(d == moment - times[k]);
                assert forall|j: int| 0 <= j < times.len() implies apart(moment, times[k] as int)
                    <= apart(moment, #[trigger] times[j] as int) by {
                    if j < n {
                        assert(times[j] == front[j]);
                    }
                }
                assert forall|j: int| 0 <= j < k implies apart(moment, times[k] as int) < apart(
                    moment,
                    #[trigger] times[j] as int,
                ) by {
                    assert(times[j] == front[j]);
                }
            } else {
                assert(d == moment - times[n]);
                assert forall|j: int| 0 <= j < n implies apart(moment, times[n] as int) < apart(
                    moment,
                    #[trigger] times[j] as int,
                ) by {
                    assert(times[j] == front[j]);
                    assert(apart(moment, front[k] as int) <= apart(moment, front[j] as int));
                }
            }
        } else {
            assert(clock::nearest_delay(moment, times)->0 == moment - times[n]);
        }
    }
}

/// The law of service days: they are the day itself and the two days before it, in this order, as
/// far as they are in the calendar.
pub proof fn service_days_are_three(day: i32)
    ensures
        forall|d: i32| #[trigger]
            clock::recent_days(day).contains(d) <==> -95_746_129 <= d && day <= 95_745_399 && day
                - 2 <= d <= day,
        forall|i: int|
            0 <= i < clock::recent_days(day).len() ==> #[trigger] clock::recent_days(day)[i] == day
                - i,
{
    let days = clock::recent_days(day);
    assert forall|d: i32| -95_746_129 <= d && day <= 95_745_399 && day - 2 <= d <= day implies #[trigger] days.contains(
    d) by {
        assert(days[day - d] == d);
    }
}

/// The moment that an RFC 3339 text tells, if there is a text and it tells one.
pub open spec fn is_read(written: Option<String>, moment: Option<i64>) -> bool {
    match written {
        Some(value) => moment == clock::rfc3339_timestamp(value@),
        None => moment is None,
    }
}

/// The law of matched times: the aimed time of a call is held against the schedule, and the
/// expected one only where no aimed one can be read; the arrival and the departure each for itself.
pub proof fn aimed_times_are_matched(
    call: EstimatedCall,
    index: Map<Seq<char>, Vec<String>>,
    aimed_arrival: Option<i64>,
    expected_arrival: Option<i64>,
    aimed_departure: Option<i64>,
    expected_departure: Option<i64>,
)
    requires
        is_read(call.aimed_arrival_time, aimed_arrival),
        is_read(call.expected_arrival_time, expected_arrival),
        is_read(call.aimed_departure_time, aimed_departure),
        is_read(call.expected_departure_time, expected_departure),
    ensures
        matching::observed_call(call, index) matches Some(observed) ==> {
            &&& aimed_arrival is Some ==> observed.arrival == aimed_arrival
            &&& aimed_arrival is None ==> observed.arrival == expected_arrival
            &&& aimed_departure is Some ==> observed.departure == aimed_departure
            &&& aimed_departure is None ==> observed.departure == expected_departure
        },
{
}

/// The law of observed calls: a call is observed exactly if it refers to a stop that is known, with
/// all stops that its reference may mean.
pub proof fn known_stops_are_observed(call: EstimatedCall, index: Map<Seq<char>, Vec<String>>)
    ensures
        matching::observed_call(call, index) is Some <==> call.stop_point_ref is Some
            && call.stop_point_ref->0.value is Some && stops::meant_stops(
            index,
            call.stop_point_ref->0.value->0@,
        ).len() > 0,
        matching::observed_call(call, index) matches Some(observed) ==> observed.aliases
            == stops::meant_stops(index, call.stop_point_ref->0.value->0@),
{
}

/// The law of reading calls: each is observed by itself, and they stay in order.
pub proof fn calls_are_observed_one_by_one(
    calls: Seq<EstimatedCall>,
    more: Seq<EstimatedCall>,
    index: Map<Seq<char>, Vec<String>>,
)
    ensures
        matching::observed_of(calls + more, index) == matching::observed_of(calls, index)
            + matching::observed_of(more, index),
        calls.len() == 1 ==> matching::observed_of(calls, index) == (
        match matching::observed_call(calls[0], index) {
            Some(observed) => seq![observed],
            None => seq![],
        }),
        calls.len() == 0 ==> matching::observed_of(calls, index).len() == 0,
    decreases more.len(),
{
    if more.len() == 0 {
        assert(calls + more =~= calls);
        assert(matching::observed_of(calls, index) + matching::observed_of(more, index)
            =~= matching::observed_of(calls, index));
    } else {
        calls_are_observed_one_by_one(calls, more.drop_last(), index);
        assert((calls + more).drop_last() =~= calls + more.drop_last());
        assert((calls + more).last() == more.last());
        assert(matching::observed_of(calls + more, index) =~= matching::observed_of(calls, index)
            + matching::observed_of(more, index));
    }
    if calls.len() == 1 {
        assert(calls.drop_last() =~= seq![]);
        assert(matching::observed_of(calls.drop_last(), index) =~= seq![]);
        assert(matching::observed_of(calls, index) =~= (match matching::observed_call(
            calls[0],
            index,
        ) {
            Some(observed) => seq![observed],
            None => seq![],
        }));
    }
}

/// Whether a moment is one of the four times of a call that can be read.
pub open spec fn is_time_of(call: EstimatedCall, moment: i64) -> bool {
    ||| is_read(call.aimed_arrival_time, Some(moment))
    ||| is_read(call.aimed_departure_time, Some(moment))
    ||| is_read(call.expected_arrival_time, Some(moment))
    ||| is_read(call.expected_departure_time, Some(moment))
}

/// The law of the tolerant time: it is the first that can be read of the expected arrival, the
/// expected departure, the aimed arrival and the aimed departure.
pub proof fn expected_times_are_seen(
    call: EstimatedCall,
    expected_arrival: Option<i64>,
    expected_departure: Option<i64>,
    aimed_arrival: Option<i64>,
    aimed_departure: Option<i64>,
)
    requires
        is_read(call.expected_arrival_time, expected_arrival),
        is_read(call.expected_departure_time, expected_departure),
        is_read(call.aimed_arrival_time, aimed_arrival),
        is_read(call.aimed_departure_time, aimed_departure),
    ensures
        expected_arrival is Some ==> adaptive_matching::moment_of(call) == expected_arrival,
        expected_arrival is None && expected_departure is Some ==> adaptive_matching::moment_of(
            call,
        ) == expected_departure,
        expected_arrival is None && expected_departure is None && aimed_arrival is Some
            ==> adaptive_matching::moment_of(call) == aimed_arrival,
        expected_arrival is None && expected_departure is None && aimed_arrival is None
            ==> adaptive_matching::moment_of(call) == aimed_departure,
{
}

/// The law of sightings: a call is seen exactly if its stop is known and it has a time, then, and
/// at the stops that its reference may mean.
pub proof fn timed_calls_are_seen(
    index: int,
    call: EstimatedCall,
    by_suffix: Map<Seq<char>, Vec<String>>,
)
    ensures
        adaptive_matching::sighting_of(index, call, by_suffix) is Some <==> call.stop_point_ref
            is Some && call.stop_point_ref->0.value is Some && stops::meant_stops(
            by_suffix,
            call.stop_point_ref->0.value->0@,
        ).len() > 0 && exists|moment: i64| #[trigger] is_time_of(call, moment),
        adaptive_matching::sighting_of(index, call, by_suffix) matches Some(seen) ==> {
            &&& seen.index == index
            &&& seen.aliases == stops::meant_stops(by_suffix, call.stop_point_ref->0.value->0@)
            &&& Some(seen.moment) == adaptive_matching::moment_of(call)
            &&& is_time_of(call, seen.moment)
        },
{
    if let Some(moment) = adaptive_matching::moment_of(call) {
        assert(is_time_of(call, moment));
    }
}

/// The law of sightings: the sightings of a journey are those of its calls that are seen, in order.
pub proof fn calls_are_seen_one_by_one(
    calls: Seq<EstimatedCall>,
    call: EstimatedCall,
    by_suffix: Map<Seq<char>, Vec<String>>,
)
    ensures
        adaptive_matching::sightings_of(seq![], by_suffix).len() == 0,
        adaptive_matching::sighting_of(calls.len() as int, call, by_suffix) matches Some(seen)
            ==> adaptive_matching::sightings_of(calls.push(call), by_suffix)
            == adaptive_matching::sightings_of(calls, by_suffix).push(seen),
        adaptive_matching::sighting_of(calls.len() as int, call, by_suffix) is None
            ==> adaptive_matching::sightings_of(calls.push(call), by_suffix)
            == adaptive_matching::sightings_of(calls, by_suffix),
{
    assert(calls.push(call).drop_last() =~= calls);
}

/// Whether a moment is an aimed time of a call that can be read.
pub open spec fn is_aimed(call: EstimatedCall, moment: i64) -> bool {
    is_read(call.aimed_arrival_time, Some(moment)) || is_read(
        call.aimed_departure_time,
        Some(moment),
    )
}

/// Whether a moment is an expected time of a call that can be read.
pub open spec fn is_expected(call: EstimatedCall, moment: i64) -> bool {
    is_read(call.expected_arrival_time, Some(moment)) || is_read(
        call.expected_departure_time,
        Some(moment),
    )
}

/// Whether a moment is the time by which a call is put in order: the earlier of its aimed times
/// that can be read, or where none can, the earlier of its expected ones.
pub open spec fn is_place_of(call: EstimatedCall, moment: i64) -> bool {
    ||| is_aimed(call, moment) && (forall|t: i64| #[trigger] is_aimed(call, t) ==> moment <= t)
    ||| (forall|t: i64| !(#[trigger] is_aimed(call, t))) && is_expected(call, moment) && (forall|
        t: i64,
    | #[trigger]
        is_expected(call, t) ==> moment <= t)
}

proof fn sort_key_is_the_place(call: EstimatedCall)
    ensures
        !processor::sort_key(call).0 ==> is_place_of(call, processor::sort_key(call).1),
        processor::sort_key(call).0 ==> forall|moment: i64| !(#[trigger] is_time_of(call, moment)),
        forall|a: i64, b: i64| #[trigger]
            is_place_of(call, a) && #[trigger] is_place_of(call, b) ==> a == b,
        forall|a: i64| #[trigger] is_place_of(call, a) ==> is_time_of(call, a),
{
    let aa = matching::stamp_of(call.aimed_arrival_time);
    let ad = matching::stamp_of(call.aimed_departure_time);
    if aa is Some {
        assert(is_aimed(call, aa->0));
    }
    if ad is Some {
        assert(is_aimed(call, ad->0));
    }
    assert forall|a: i64, b: i64| #[trigger]
        is_place_of(call, a) && #[trigger] is_place_of(call, b) implies a == b by {
        assert(is_aimed(call, a) || is_expected(call, a));
        assert(is_aimed(call, b) || is_expected(call, b));
    }
}

/// The law of the order of calls: of two calls in time order, the later one is not before the
/// earlier one by their times, and one without any time does not stand before one with a time.
pub proof fn calls_stand_by_their_times(journey: Journey, i: int, j: int, s: i64, t: i64)
    requires
        0 <= i < j < processor::in_time_order(journey).calls.len(),
    ensures
        ({
            let calls = processor::in_time_order(journey).calls;
            &&& is_place_of(calls[i], s) && is_place_of(calls[j], t) ==> s <= t
            &&& is_time_of(calls[j], t) ==> exists|moment: i64| #[trigger]
                is_time_of(calls[i], moment)
        }),
{
    processor::calls_are_put_in_order(journey);
    let calls = processor::in_time_order(journey).calls;
    sort_key_is_the_place(calls[i]);
    sort_key_is_the_place(calls[j]);
    assert(!order::Ranked::before(calls[j], calls[i]));
    let a = processor::sort_key(calls[i]);
    let b = processor::sort_key(calls[j]);
    if is_place_of(calls[i], s) && is_place_of(calls[j], t) {
        assert(is_time_of(calls[i], s) && is_time_of(calls[j], t));
    }
    if is_time_of(calls[j], t) && a.0 {
        assert(!b.0);
    }
    if !a.0 {
        assert(is_time_of(calls[i], a.1));
    }
}

/// The law of due times: a stop is due to be left at its departure, else its arrival, and to be
/// reached at its arrival, else its departure.
pub proof fn stops_are_due(stop: StopTime)
    ensures
        stop.arrival_time is Some ==> gtfs::due_at_arrival(stop) == stop.arrival_time,
        stop.arrival_time is None ==> gtfs::due_at_arrival(stop) == stop.departure_time,
        stop.departure_time is Some ==> gtfs::due_at_departure(stop) == stop.departure_time,
        stop.departure_time is None ==> gtfs::due_at_departure(stop) == stop.arrival_time,
{
}

/// The law of journeys: what bears on a match is what its references and its calls say.
pub proof fn journeys_say(journey: siri_models::EstimatedVehicleJourney)
    ensures
        journey@.name is Some <==> journey.dated_vehicle_journey_ref is Some
            && journey.dated_vehicle_journey_ref->0.value is Some,
        journey@.name matches Some(name) ==> name
            == journey.dated_vehicle_journey_ref->0.value->0@,
        journey@.line is Some <==> journey.line_ref is Some && journey.line_ref->0.value is Some,
        journey@.line matches Some(line) ==> line == journey.line_ref->0.value->0@,
        journey@.operator is Some <==> journey.operator_ref is Some
            && journey.operator_ref->0.value is Some,
        journey@.operator matches Some(operator) ==> operator
            == journey.operator_ref->0.value->0@,
        journey@.destination is Some <==> journey.destination_ref is Some
            && journey.destination_ref->0.value is Some,
        journey@.destination matches Some(destination) ==> destination
            == journey.destination_ref->0.value->0@,
        journey.estimated_calls is None ==> journey@.calls.len() == 0,
        journey.estimated_calls matches Some(calls) ==> journey@.calls == calls.estimated_call@,
{
}

} // verus!
