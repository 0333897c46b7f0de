//! From a SIRI delivery to the feed: the journeys whose trips are found, and why the others are not.

use crate::clock::{self, day_text};
use crate::feed::{self, scheduled_entity, Entry, FeedBuilder, FeedEntity, FeedMessage, StopTimeUpdate, Visit};
use crate::gtfs::{self, Gtfs, Trip};
use crate::matching::{self, earlier_of, has_matching_time, read_stamp, JourneyMatch, Match, MatchKind, MatchMissReason};
use crate::matching_diagnostics::{self, StopAlignmentDiagnostics};
use crate::order::{self, sort_by_rank, Ranked};
use crate::siri_models::{self, reference_value, EstimatedCall, EstimatedJourneyVersionFrame, EstimatedTimetableDelivery, EstimatedVehicleJourney, Journey, SiriResponse};
use crate::state::{self, insert_platforms, LoadedGtfs, PlatformInfo};
use crate::table::Table;
use crate::text::{self, text_eq, text_eq_ignore_case};
use dashmap::DashMap;
use vstd::prelude::*;

verus! {

/// By what calls are put in order: those without a time last, the others by their time. The time
/// is the earlier of the aimed ones, else of the expected ones.
pub open spec fn sort_key(call: EstimatedCall) -> (bool, i64) {
    let time = matching::first_stamp(
        matching::earlier(
            matching::stamp_of(call.aimed_arrival_time),
            matching::stamp_of(call.aimed_departure_time),
        ),
        matching::earlier(
            matching::stamp_of(call.expected_arrival_time),
            matching::stamp_of(call.expected_departure_time),
        ),
    );
    match time {
        Some(t) => (false, t),
        None => (true, i64::MAX),
    }
}

/// By what calls are put in order.
pub fn estimated_call_sort_key(call: &EstimatedCall) -> (r: (bool, i64))
    ensures
        r == sort_key(*call),
{
    let aimed = earlier_of(
        read_stamp(&call.aimed_arrival_time),
        read_stamp(&call.aimed_departure_time),
    );
    let time = match aimed {
        Some(t) => Some(t),
        None => earlier_of(
            read_stamp(&call.expected_arrival_time),
            read_stamp(&call.expected_departure_time),
        ),
    };
    match time {
        Some(t) => (false, t),
        None => (true, i64::MAX),
    }
}

impl Ranked for EstimatedCall {
    open spec fn before(self, other: Self) -> bool {
        let a = sort_key(self);
        let b = sort_key(other);
        (!a.0 && b.0) || (a.0 == b.0 && a.1 < b.1)
    }

    proof fn before_is_one_way(a: Self, b: Self) {
    }

    proof fn not_before_is_transitive(a: Self, b: Self, c: Self) {
    }

    fn is_before(&self, other: &Self) -> (r: bool) {
        let a = estimated_call_sort_key(self);
        let b = estimated_call_sort_key(other);
        (!a.0 && b.0) || (a.0 == b.0 && a.1 < b.1)
    }
}

/// A journey with its calls in the order of their times; calls of the same time, or without one,
/// keep their order.
pub open spec fn in_time_order(journey: Journey) -> Journey {
    Journey { calls: order::ranked(journey.calls), ..journey }
}

/// Puts the calls of a journey in the order of their times.
pub fn sort_estimated_calls_by_time(journey: &mut EstimatedVehicleJourney)
    ensures
        final(journey)@ == in_time_order(old(journey)@),
        siri_models::differ_in_calls_only(*final(journey), *old(journey)),
        final(journey).direction_name == old(journey).direction_name,
        final(journey).journey_note == old(journey).journey_note,
{
    match &mut journey.estimated_calls {
        Some(calls) => {
            sort_by_rank(&mut calls.estimated_call);
        },
        None => {},
    }
    assert(order::ranked(Seq::<EstimatedCall>::empty()) =~= seq![]);
}

/// Whether a status says that a call is cancelled.
pub open spec fn is_cancelled(status: Seq<char>) -> bool {
    text::equal_but_for_case(status, "CANCELLED"@) || text::equal_but_for_case(
        status,
        "CANCELED"@,
    )
}

/// Whether a status says that a call is cancelled.
pub fn is_cancelled_status(status: &str) -> (r: bool)
    ensures
        r == is_cancelled(status@),
{
    text_eq_ignore_case(status, "CANCELLED") || text_eq_ignore_case(status, "CANCELED")
}

/// Whether the arrival or the departure of a call is cancelled.
pub open spec fn is_skipped(call: EstimatedCall) -> bool {
    (call.arrival_status matches Some(status) && is_cancelled(status@)) || (
    call.departure_status matches Some(status) && is_cancelled(status@))
}

/// Whether the arrival or the departure of a call is cancelled.
pub fn skips_stop(call: &EstimatedCall) -> (r: bool)
    ensures
        r == is_skipped(*call),
{
    let arrival = match &call.arrival_status {
        Some(status) => is_cancelled_status(status.as_str()),
        None => false,
    };
    let departure = match &call.departure_status {
        Some(status) => is_cancelled_status(status.as_str()),
        None => false,
    };
    arrival || departure
}

/// The time that is told of a call: the expected one if one is given, else the aimed one.
pub open spec fn told_time(expected: Option<String>, aimed: Option<String>) -> Option<i64> {
    match expected {
        Some(_) => matching::stamp_of(expected),
        None => matching::stamp_of(aimed),
    }
}

fn read_told_time(expected: &Option<String>, aimed: &Option<String>) -> (r: Option<i64>)
    ensures
        r == told_time(*expected, *aimed),
{
    match expected {
        Some(_) => read_stamp(expected),
        None => read_stamp(aimed),
    }
}

/// The arrival that is told of a call.
pub fn realtime_or_aimed_arrival(call: &EstimatedCall) -> (r: Option<i64>)
    ensures
        r == told_time(call.expected_arrival_time, call.aimed_arrival_time),
{
    read_told_time(&call.expected_arrival_time, &call.aimed_arrival_time)
}

/// The departure that is told of a call.
pub fn realtime_or_aimed_departure(call: &EstimatedCall) -> (r: Option<i64>)
    ensures
        r == told_time(call.expected_departure_time, call.aimed_departure_time),
{
    read_told_time(&call.expected_departure_time, &call.aimed_departure_time)
}

/// What a call says of a stop.
pub open spec fn visit_of(call: EstimatedCall, stop: Seq<char>) -> Visit {
    Visit {
        stop,
        arrival: told_time(call.expected_arrival_time, call.aimed_arrival_time),
        departure: told_time(call.expected_departure_time, call.aimed_departure_time),
        skipped: is_skipped(call),
    }
}

/// What a call says of a stop.
pub fn update_for(call: &EstimatedCall, stop_id: &str) -> (r: StopTimeUpdate)
    ensures
        r@ == visit_of(*call, stop_id@),
{
    StopTimeUpdate {
        stop_id: stop_id.to_owned(),
        arrival: realtime_or_aimed_arrival(call),
        departure: realtime_or_aimed_departure(call),
        skipped: skips_stop(call),
    }
}

/// The platform of a call: that of the departure if one is given, else that of the arrival.
pub open spec fn platform_of(call: EstimatedCall) -> Option<Seq<char>> {
    match call.departure_platform_name {
        Some(_) => siri_models::reference_text(call.departure_platform_name),
        None => siri_models::reference_text(call.arrival_platform_name),
    }
}

/// The platform of a call.
pub fn platform_name(call: &EstimatedCall) -> (r: Option<&str>)
    ensures
        text::opt_text(r) == platform_of(*call),
{
    match &call.departure_platform_name {
        Some(_) => reference_value(&call.departure_platform_name),
        None => reference_value(&call.arrival_platform_name),
    }
}

/// The service day of a match, in digits.
pub open spec fn start_of(day: Option<i32>) -> Option<Seq<char>> {
    match day {
        Some(day) => clock::day_digits(day),
        None => None,
    }
}

/// The service day of a match, in digits.
pub fn start_date(day: Option<i32>) -> (r: Option<String>)
    ensures
        text::opt_string(r) == start_of(day),
{
    match day {
        Some(day) => day_text(day),
        None => None,
    }
}

/// The stop at a place of a trip, if there are a trip and such a place.
pub open spec fn stop_at(trip: Option<Trip>, at: Seq<usize>, k: int) -> Option<Seq<char>> {
    match trip {
        Some(t) => if 0 <= k < at.len() && at[k] < t.stop_times@.len() {
            Some(t.stop_times@[at[k] as int].stop_id@)
        } else {
            None
        },
        None => None,
    }
}

/// The trip of an identifier.
pub open spec fn trip_of(schedule: Gtfs, id: Seq<char>) -> Option<Trip> {
    if schedule.trips@.contains_key(id) {
        Some(schedule.trips@[id])
    } else {
        None
    }
}

/// The stop at which a matched journey is put with its last call: that of the match, if the stop of
/// the call is known.
pub open spec fn last_stop(
    calls: Seq<EstimatedCall>,
    index: Map<Seq<char>, Vec<String>>,
    trip: Option<Trip>,
    at: Seq<usize>,
) -> Option<Seq<char>> {
    match matching::observed_call(calls.last(), index) {
        Some(_) => stop_at(trip, at, matching::observed_of(calls.drop_last(), index).len() as int),
        None => None,
    }
}

/// What the calls of a matched journey say of the stops of its trip.
pub open spec fn matched_visits(
    calls: Seq<EstimatedCall>,
    index: Map<Seq<char>, Vec<String>>,
    trip: Option<Trip>,
    at: Seq<usize>,
) -> Seq<Visit>
    decreases calls.len(),
{
    if calls.len() == 0 {
        seq![]
    } else {
        let front = matched_visits(calls.drop_last(), index, trip, at);
        match last_stop(calls, index, trip, at) {
            Some(stop) => front.push(visit_of(calls.last(), stop)),
            None => front,
        }
    }
}

/// The platforms that the calls of a matched journey name.
pub open spec fn matched_platforms(
    calls: Seq<EstimatedCall>,
    index: Map<Seq<char>, Vec<String>>,
    trip: Option<Trip>,
    at: Seq<usize>,
) -> Seq<(Seq<char>, Seq<char>)>
    decreases calls.len(),
{
    if calls.len() == 0 {
        seq![]
    } else {
        let front = matched_platforms(calls.drop_last(), index, trip, at);
        match (last_stop(calls, index, trip, at), platform_of(calls.last())) {
            (Some(stop), Some(name)) => if name != "unknown"@ {
                front.push((stop, name))
            } else {
                front
            },
            _ => front,
        }
    }
}

/// The entry of a matched journey.
pub open spec fn matched_entry(
    schedule: Gtfs,
    index: Map<Seq<char>, Vec<String>>,
    journey: Journey,
    found: Match,
) -> Entry {
    feed::scheduled_entry(
        found.trip_id,
        start_of(found.day),
        matched_visits(journey.calls, index, trip_of(schedule, found.trip_id), found.at),
    )
}

fn place<'a>(trip: Option<&'a Trip>, at: &Vec<usize>, k: usize) -> (r: Option<&'a str>)
    ensures
        text::opt_text(r) == stop_at(
            match trip {
                Some(t) => Some(*t),
                None => None,
            },
            at@,
            k as int,
        ),
{
    match trip {
        Some(t) => if k < at.len() && at[k] < t.stop_times.len() {
            Some(t.stop_times[at[k]].stop_id.as_str())
        } else {
            None
        },
        None => None,
    }
}

fn names_known_stop(loaded: &LoadedGtfs, call: &EstimatedCall) -> (r: bool)
    ensures
        r == (matching::observed_call(*call, loaded.match_index.stop_ids_by_suffix@) is Some),
{
    match reference_value(&call.stop_point_ref) {
        Some(reference) => {
            let known = loaded.match_index.resolve_siri_stop_ids(reference);
            assert(text::texts(known@).len() == known@.len());
            known.len() > 0
        },
        None => false,
    }
}

/// The entry of a matched journey, and the platforms that it names.
pub fn build_trip_update(
    loaded: &LoadedGtfs,
    journey: &EstimatedVehicleJourney,
    matched: &JourneyMatch,
) -> (r: (FeedEntity, Vec<PlatformInfo>))
    ensures
        r.0@ == matched_entry(
            loaded.gtfs,
            loaded.match_index.stop_ids_by_suffix@,
            journey@,
            matched@,
        ),
        state::platforms_of(r.1@) == matched_platforms(
            journey@.calls,
            loaded.match_index.stop_ids_by_suffix@,
            trip_of(loaded.gtfs, matched@.trip_id),
            matched@.at,
        ),
{
    let trip = loaded.gtfs.trips.get(matched.trip_id.as_str());
    let ghost known = trip_of(loaded.gtfs, matched@.trip_id);
    let ghost index = loaded.match_index.stop_ids_by_suffix@;
    let mut updates: Vec<StopTimeUpdate> = Vec::new();
    let mut platforms: Vec<PlatformInfo> = Vec::new();
    assert(feed::visits_of(updates@) =~= seq![]);
    assert(state::platforms_of(platforms@) =~= seq![]);
    if let Some(calls) = &journey.estimated_calls {
        let list = &calls.estimated_call;
        let mut observed: usize = 0;
        let mut i: usize = 0;
        while i < list.len()
            invariant
                i <= list@.len(),
                observed <= i,
                index == loaded.match_index.stop_ids_by_suffix@,
                known == (match trip {
                    Some(t) => Some(*t),
                    None => None,
                }),
                observed == matching::observed_of(list@.take(i as int), index).len(),
                feed::visits_of(updates@) == matched_visits(
                    list@.take(i as int),
                    index,
                    known,
                    matched.stop_indices@,
                ),
                state::platforms_of(platforms@) == matched_platforms(
                    list@.take(i as int),
                    index,
                    known,
                    matched.stop_indices@,
                ),
            decreases list@.len() - i,
        {
            let call = &list[i];
            assert(list@.take(i + 1).drop_last() =~= list@.take(i as int));
            assert(list@.take(i + 1).last() == *call);
            if names_known_stop(loaded, call) {
                let stop = place(trip, &matched.stop_indices, observed);
                observed = observed + 1;
                if let Some(stop_id) = stop {
                    let ghost visits = feed::visits_of(updates@);
                    updates.push(update_for(call, stop_id));
                    assert(feed::visits_of(updates@) =~= visits.push(visit_of(*call, stop_id@)));
                    if let Some(name) = platform_name(call) {
                        if !text_eq(name, "unknown") {
                            let ghost named = state::platforms_of(platforms@);
                            platforms.push(
                                PlatformInfo {
                                    stop_id: stop_id.to_owned(),
                                    platform_name: name.to_owned(),
                                },
                            );
                            assert(state::platforms_of(platforms@) =~= named.push(
                                (stop_id@, name@),
                            ));
                        }
                    }
                }
            }
            i = i + 1;
        }
        assert(list@.take(i as int) =~= list@);
    }
    let start = start_date(matched.service_date);
    (scheduled_entity(matched.trip_id.as_str(), start, updates), platforms)
}

/// The name under which a journey without a match is counted: that of the kind of failure where it
/// can be said why the calls have no alignment, else that of the reason.
pub open spec fn miss_name(
    loaded: LoadedGtfs,
    journey: Journey,
    reason: MatchMissReason,
) -> Seq<char> {
    if reason == MatchMissReason::NoStopAlignment && loaded.match_index.can_diagnose(journey) {
        matching_diagnostics::failure_name(loaded.match_index.failure_of(journey))
    } else {
        matching::reason_name(reason)
    }
}

/// The entry of a journey without a match that names a trip and calls at known stops, but tells no
/// time of any: the trip, without a day and without stops.
pub open spec fn named_entry(loaded: LoadedGtfs, journey: Journey) -> Option<Entry> {
    let ids = loaded.match_index.named_ids(loaded.gtfs, journey);
    let calls = loaded.match_index.observed(journey);
    if calls.len() > 0 && !matching::has_time(calls) && ids.len() > 0
        && loaded.gtfs.trips@.contains_key(ids[0]) {
        Some(feed::scheduled_entry(ids[0], None, seq![]))
    } else {
        None
    }
}

/// The entry that there may be.
pub open spec fn entity_view(entity: Option<FeedEntity>) -> Option<Entry> {
    match entity {
        Some(found) => Some(found@),
        None => None,
    }
}

fn build_named_entity(loaded: &LoadedGtfs, journey: &EstimatedVehicleJourney) -> (r: Option<
    FeedEntity,
>)
    ensures
        entity_view(r) == named_entry(*loaded, journey@),
{
    let calls = loaded.match_index.observed_calls(journey);
    if calls.len() == 0 || has_matching_time(&calls) {
        return None;
    }
    let ids = loaded.match_index.named_candidates(journey, &loaded.gtfs);
    assert(text::texts(ids@).len() == ids@.len());
    if ids.len() == 0 {
        return None;
    }
    assert(text::texts(ids@)[0] == ids@[0]@);
    if !loaded.gtfs.trips.contains_key(ids[0].as_str()) {
        return None;
    }
    let none: Vec<StopTimeUpdate> = Vec::new();
    assert(feed::visits_of(none@) =~= seq![]);
    Some(scheduled_entity(ids[0].as_str(), None, none))
}

/// A journey without a match, and why it has none.
#[derive(Debug, Clone)]
pub struct MissedExample {
    /// The name under which it is counted.
    pub reason: &'static str,
    pub original_reason: MatchMissReason,
    pub stop_alignment: Option<StopAlignmentDiagnostics>,
    pub journey: EstimatedVehicleJourney,
}

/// A journey without a match, and why it has none.
#[verifier::ext_equal]
pub ghost struct Example {
    pub reason: Seq<char>,
    pub original: MatchMissReason,
    pub journey: Journey,
}

impl View for MissedExample {
    type V = Example;

    open spec fn view(&self) -> Example {
        Example {
            reason: self.reason@,
            original: self.original_reason,
            journey: self.journey@,
        }
    }
}

/// The examples of a list.
pub open spec fn examples_of(list: Seq<MissedExample>) -> Seq<Example> {
    Seq::new(list.len(), |i: int| list[i]@)
}

/// Whether an example tells why the calls have no alignment exactly if that is why there is no
/// match and it can be said.
pub open spec fn is_explained(loaded: LoadedGtfs, example: MissedExample) -> bool {
    match example.stop_alignment {
        Some(found) => example.original_reason == MatchMissReason::NoStopAlignment
            && loaded.match_index.can_diagnose(example.journey@) && loaded.match_index.is_diagnosis(
            found,
            example.journey@,
        ),
        None => example.original_reason != MatchMissReason::NoStopAlignment
            || !loaded.match_index.can_diagnose(example.journey@),
    }
}

/// How many journeys are kept as examples of one reason.
pub const MAX_MISSED_EXAMPLES_PER_REASON: usize = 20;

/// What a delivery comes to.
pub struct SiriReport {
    /// The entries of the matched journeys.
    pub entities: Vec<FeedEntity>,
    /// The entries of the journeys without a match that name a trip but tell no time.
    pub named_only: Vec<FeedEntity>,
    pub exact_matches: usize,
    pub sequence_matches: usize,
    pub parent_station_matches: usize,
    pub unmatched: usize,
    pub scored_matches: usize,
    pub total_mean_difference_seconds: i128,
    pub missed_by_reason: Table<usize>,
    pub missed_examples: Vec<MissedExample>,
}

/// What a delivery comes to.
#[verifier::ext_equal]
pub ghost struct Report {
    pub entries: Seq<Entry>,
    pub named_only: Seq<Entry>,
    pub exact: int,
    pub by_direction: int,
    pub by_station: int,
    pub missed: int,
    pub scored: int,
    pub total: int,
    pub reasons: Map<Seq<char>, usize>,
    pub examples: Seq<Example>,
}

impl View for SiriReport {
    type V = Report;

    open spec fn view(&self) -> Report {
        Report {
            entries: feed::entries_of(self.entities@),
            named_only: feed::entries_of(self.named_only@),
            exact: self.exact_matches as int,
            by_direction: self.sequence_matches as int,
            by_station: self.parent_station_matches as int,
            missed: self.unmatched as int,
            scored: self.scored_matches as int,
            total: self.total_mean_difference_seconds as int,
            reasons: self.missed_by_reason@,
            examples: examples_of(self.missed_examples@),
        }
    }
}

/// How often a name was counted.
pub open spec fn times(reasons: Map<Seq<char>, usize>, name: Seq<char>) -> int {
    if reasons.contains_key(name) {
        reasons[name] as int
    } else {
        0
    }
}

/// A report with one matched journey more.
pub open spec fn with_match(
    report: Report,
    loaded: LoadedGtfs,
    journey: Journey,
    found: Match,
) -> Report {
    Report {
        entries: report.entries.push(
            matched_entry(
                loaded.gtfs,
                loaded.match_index.stop_ids_by_suffix@,
                journey,
                found,
            ),
        ),
        exact: report.exact + (if found.kind == MatchKind::ExactId {
            1int
        } else {
            0
        }),
        by_direction: report.by_direction + (if found.kind == MatchKind::DirectionAndTime {
            1int
        } else {
            0
        }),
        by_station: report.by_station + (if found.by_station {
            1int
        } else {
            0
        }),
        scored: report.scored + (if found.mean is Some {
            1int
        } else {
            0
        }),
        total: report.total + (match found.mean {
            Some(mean) => mean,
            None => 0,
        }),
        ..report
    }
}

/// A report with one journey without a match more.
pub open spec fn with_miss(
    report: Report,
    loaded: LoadedGtfs,
    journey: Journey,
    reason: MatchMissReason,
) -> Report {
    let name = miss_name(loaded, journey, reason);
    let before = times(report.reasons, name);
    Report {
        named_only: match named_entry(loaded, journey) {
            Some(entry) => report.named_only.push(entry),
            None => report.named_only,
        },
        missed: report.missed + 1,
        reasons: report.reasons.insert(name, (before + 1) as usize),
        examples: if before < MAX_MISSED_EXAMPLES_PER_REASON {
            report.examples.push(Example { reason: name, original: reason, journey })
        } else {
            report.examples
        },
        ..report
    }
}

/// The report of no journeys.
pub open spec fn empty_report() -> Report {
    Report {
        entries: seq![],
        named_only: seq![],
        exact: 0,
        by_direction: 0,
        by_station: 0,
        missed: 0,
        scored: 0,
        total: 0,
        reasons: Map::empty(),
        examples: seq![],
    }
}

/// The report of journeys, each with its calls in the order of their times.
pub open spec fn report_of(loaded: LoadedGtfs, journeys: Seq<EstimatedVehicleJourney>) -> Report
    decreases journeys.len(),
{
    if journeys.len() == 0 {
        empty_report()
    } else {
        let front = report_of(loaded, journeys.drop_last());
        let journey = in_time_order(journeys.last()@);
        match loaded.match_index.journey_match(loaded.gtfs, journey) {
            Ok(found) => with_match(front, loaded, journey, found),
            Err(reason) => with_miss(front, loaded, journey, reason),
        }
    }
}

/// The platforms by trip after journeys were read: those that the last journey matched with a trip
/// names, if it names any.
pub open spec fn rows_after(
    rows: Map<Seq<char>, Seq<(Seq<char>, Seq<char>)>>,
    loaded: LoadedGtfs,
    journeys: Seq<EstimatedVehicleJourney>,
) -> Map<Seq<char>, Seq<(Seq<char>, Seq<char>)>>
    decreases journeys.len(),
{
    if journeys.len() == 0 {
        rows
    } else {
        let front = rows_after(rows, loaded, journeys.drop_last());
        let journey = in_time_order(journeys.last()@);
        match loaded.match_index.journey_match(loaded.gtfs, journey) {
            Ok(found) => {
                let platforms = matched_platforms(
                    journey.calls,
                    loaded.match_index.stop_ids_by_suffix@,
                    trip_of(loaded.gtfs, found.trip_id),
                    found.at,
                );
                if platforms.len() > 0 {
                    front.insert(found.trip_id, platforms)
                } else {
                    front
                }
            },
            Err(_) => front,
        }
    }
}

/// The journeys of the frames, in order.
pub open spec fn journeys_of_frames(frames: Seq<EstimatedJourneyVersionFrame>) -> Seq<
    EstimatedVehicleJourney,
>
    decreases frames.len(),
{
    if frames.len() == 0 {
        seq![]
    } else {
        journeys_of_frames(frames.drop_last()) + frames.last().estimated_vehicle_journey@
    }
}

/// The journeys of the deliveries, in order.
pub open spec fn journeys_of_deliveries(deliveries: Seq<EstimatedTimetableDelivery>) -> Seq<
    EstimatedVehicleJourney,
>
    decreases deliveries.len(),
{
    if deliveries.len() == 0 {
        seq![]
    } else {
        journeys_of_deliveries(deliveries.drop_last()) + journeys_of_frames(
            deliveries.last().estimated_journey_version_frame@,
        )
    }
}

/// The journeys of a response, in order.
pub open spec fn journeys_of(siri: SiriResponse) -> Seq<EstimatedVehicleJourney> {
    journeys_of_deliveries(siri.siri.service_delivery.estimated_timetable_delivery@)
}

fn reversed(list: Vec<EstimatedVehicleJourney>) -> (r: Vec<EstimatedVehicleJourney>)
    ensures
        r@ == list@.reverse(),
{
    let mut left = list;
    let mut out: Vec<EstimatedVehicleJourney> = Vec::new();
    assert(out@ + left@.reverse() =~= list@.reverse());
    while left.len() > 0
        invariant
            out@ + left@.reverse() == list@.reverse(),
        decreases left@.len(),
    {
        let ghost given = left@;
        if let Some(journey) = left.pop() {
            out.push(journey);
            assert(given.reverse() =~= seq![journey] + left@.reverse());
            assert(out@ + left@.reverse() =~= list@.reverse());
        }
    }
    assert(out@ =~= list@.reverse());
    out
}

/// The journeys of a response, in order.
pub fn journeys_in(siri: SiriResponse) -> (r: Vec<EstimatedVehicleJourney>)
    ensures
        r@ == journeys_of(siri),
{
    let mut deliveries = siri.siri.service_delivery.estimated_timetable_delivery;
    let ghost all = journeys_of_deliveries(deliveries@);
    let mut backwards: Vec<EstimatedVehicleJourney> = Vec::new();
    assert(all =~= journeys_of_deliveries(deliveries@) + backwards@.reverse());
    while deliveries.len() > 0
        invariant
            all == journeys_of_deliveries(deliveries@) + backwards@.reverse(),
        decreases deliveries@.len(),
    {
        let ghost given = deliveries@;
        if let Some(delivery) = deliveries.pop() {
            assert(given.drop_last() =~= deliveries@);
            let mut frames = delivery.estimated_journey_version_frame;
            let ghost front = journeys_of_deliveries(deliveries@);
            assert(all =~= front + journeys_of_frames(frames@) + backwards@.reverse());
            while frames.len() > 0
                invariant
                    all == front + journeys_of_frames(frames@) + backwards@.reverse(),
                decreases frames@.len(),
            {
                let ghost given_frames = frames@;
                if let Some(frame) = frames.pop() {
                    assert(given_frames.drop_last() =~= frames@);
                    let mut journeys = frame.estimated_vehicle_journey;
                    let ghost before = front + journeys_of_frames(frames@);
                    assert(all =~= before + journeys@ + backwards@.reverse());
                    while journeys.len() > 0
                        invariant
                            all == before + journeys@ + backwards@.reverse(),
                        decreases journeys@.len(),
                    {
                        let ghost given_journeys = journeys@;
                        let ghost given_backwards = backwards@;
                        if let Some(journey) = journeys.pop() {
                            backwards.push(journey);
                            assert(backwards@.reverse() =~= seq![journey]
                                + given_backwards.reverse());
                            assert(given_journeys =~= journeys@.push(journey));
                            assert(all =~= before + journeys@ + backwards@.reverse());
                        }
                    }
                    assert(all =~= before + backwards@.reverse());
                }
            }
            assert(all =~= front + backwards@.reverse());
        }
    }
    assert(all =~= backwards@.reverse());
    reversed(backwards)
}

impl SiriReport {
    /// A report of no journeys.
    pub fn new() -> (r: Self)
        ensures
            r@ == empty_report(),
            r.missed_examples@.len() == 0,
    {
        let r = SiriReport {
            entities: Vec::new(),
            named_only: Vec::new(),
            exact_matches: 0,
            sequence_matches: 0,
            parent_station_matches: 0,
            unmatched: 0,
            scored_matches: 0,
            total_mean_difference_seconds: 0,
            missed_by_reason: Table::new(),
            missed_examples: Vec::new(),
        };
        assert(r@ =~= empty_report());
        r
    }

    /// Whether the numbers of the report are those of at most `count` journeys.
    spec fn counts(self, count: int) -> bool {
        &&& self.exact_matches <= count
        &&& self.sequence_matches <= count
        &&& self.parent_station_matches <= count
        &&& self.unmatched <= count
        &&& self.scored_matches <= count
        &&& i64::MIN * count <= self.total_mean_difference_seconds <= i64::MAX * count
        &&& forall|name: Seq<char>| #[trigger] times(self.missed_by_reason@, name) <= count
    }

    fn note_match(
        &mut self,
        loaded: &LoadedGtfs,
        journey: &EstimatedVehicleJourney,
        matched: &JourneyMatch,
        trip_platforms: &mut DashMap<String, Vec<PlatformInfo>>,
        Ghost(count): Ghost<int>,
    )
        requires
            old(self).counts(count),
            0 <= count < usize::MAX,
        ensures
            final(self)@ == with_match(old(self)@, *loaded, journey@, matched@),
            final(self).counts(count + 1),
            final(self).missed_examples == old(self).missed_examples,
            state::platform_rows(*final(trip_platforms)) == ({
                let platforms = matched_platforms(
                    journey@.calls,
                    loaded.match_index.stop_ids_by_suffix@,
                    trip_of(loaded.gtfs, matched@.trip_id),
                    matched@.at,
                );
                if platforms.len() > 0 {
                    state::platform_rows(*old(trip_platforms)).insert(matched@.trip_id, platforms)
                } else {
                    state::platform_rows(*old(trip_platforms))
                }
            }),
    {
        match matched.kind {
            MatchKind::ExactId => {
                self.exact_matches = self.exact_matches + 1;
            },
            MatchKind::DirectionAndTime => {
                self.sequence_matches = self.sequence_matches + 1;
            },
        }
        if matched.used_parent_station_match {
            self.parent_station_matches = self.parent_station_matches + 1;
        }
        if let Some(difference) = matched.mean_abs_difference_seconds {
            self.scored_matches = self.scored_matches + 1;
            self.total_mean_difference_seconds = self.total_mean_difference_seconds
                + difference as i128;
        }
        let (entity, platforms) = build_trip_update(loaded, journey, matched);
        assert(state::platforms_of(platforms@).len() == platforms@.len());
        if platforms.len() > 0 {
            insert_platforms(trip_platforms, matched.trip_id.clone(), platforms);
        }
        let ghost before = feed::entries_of(self.entities@);
        self.entities.push(entity);
        assert(feed::entries_of(self.entities@) =~= before.push(entity@));
        assert(self@ =~= with_match(old(self)@, *loaded, journey@, matched@));
        assert forall|name: Seq<char>| #[trigger] times(self.missed_by_reason@, name) <= count
            + 1 by {
            assert(times(old(self).missed_by_reason@, name) <= count);
        }
    }

    fn note_miss(
        &mut self,
        loaded: &LoadedGtfs,
        journey: EstimatedVehicleJourney,
        reason: MatchMissReason,
        Ghost(count): Ghost<int>,
    )
        requires
            old(self).counts(count),
            0 <= count < usize::MAX,
            forall|i: int|
                0 <= i < old(self).missed_examples@.len() ==> is_explained(
                    *loaded,
                    #[trigger] old(self).missed_examples@[i],
                ),
        ensures
            final(self)@ == with_miss(old(self)@, *loaded, journey@, reason),
            final(self).counts(count + 1),
            forall|i: int|
                0 <= i < final(self).missed_examples@.len() ==> is_explained(
                    *loaded,
                    #[trigger] final(self).missed_examples@[i],
                ),
    {
        let stop_alignment = if reason == MatchMissReason::NoStopAlignment {
            loaded.match_index.diagnose_stop_alignment(&journey)
        } else {
            None
        };
        let name: &'static str = match &stop_alignment {
            Some(found) => found.kind.as_str(),
            None => reason.as_str(),
        };
        assert(name@ == miss_name(*loaded, journey@, reason));
        self.unmatched = self.unmatched + 1;
        let before: usize = match self.missed_by_reason.get(name) {
            Some(times) => *times,
            None => 0,
        };
        assert(before == times(old(self).missed_by_reason@, name@));
        self.missed_by_reason.insert(name.to_owned(), before + 1);
        assert forall|other: Seq<char>| #[trigger] times(self.missed_by_reason@, other) <= count
            + 1 by {
            assert(times(old(self).missed_by_reason@, other) <= count);
        }
        let ghost bare = feed::entries_of(self.named_only@);
        if let Some(entity) = build_named_entity(loaded, &journey) {
            self.named_only.push(entity);
            assert(feed::entries_of(self.named_only@) =~= bare.push(entity@));
        }
        let ghost examples = self.missed_examples@;
        if before < MAX_MISSED_EXAMPLES_PER_REASON {
            let example = MissedExample {
                reason: name,
                original_reason: reason,
                stop_alignment,
                journey,
            };
            self.missed_examples.push(example);
            assert(examples_of(self.missed_examples@) =~= examples_of(examples).push(example@));
            assert(is_explained(*loaded, example));
            assert forall|i: int| 0 <= i < self.missed_examples@.len() implies is_explained(
                *loaded,
                #[trigger] self.missed_examples@[i],
            ) by {
                if i < examples.len() {
                    assert(self.missed_examples@[i] == examples[i]);
                }
            }
        }
        assert(self@ =~= with_miss(old(self)@, *loaded, journey@, reason));
    }
}

/// Reads journeys: what they come to, and the platforms that they name.
pub fn process_journeys(
    loaded: &LoadedGtfs,
    journeys: Vec<EstimatedVehicleJourney>,
    trip_platforms: &mut DashMap<String, Vec<PlatformInfo>>,
) -> (r: SiriReport)
    ensures
        r@ == report_of(*loaded, journeys@),
        state::platform_rows(*final(trip_platforms)) == rows_after(
            state::platform_rows(*old(trip_platforms)),
            *loaded,
            journeys@,
        ),
        forall|i: int|
            0 <= i < r.missed_examples@.len() ==> is_explained(
                *loaded,
                #[trigger] r.missed_examples@[i],
            ),
{
    let ghost all = journeys@;
    let ghost rows = state::platform_rows(*trip_platforms);
    let ghost mut done: int = 0;
    assert(all.len() == journeys.len());
    let mut waiting = reversed(journeys);
    let mut report = SiriReport::new();
    assert(all.take(0) =~= seq![]);
    assert(all.skip(0).reverse() =~= all.reverse());
    while waiting.len() > 0
        invariant
            0 <= done <= all.len() <= usize::MAX,
            waiting@ == all.skip(done).reverse(),
            report@ == report_of(*loaded, all.take(done)),
            report.counts(done),
            state::platform_rows(*trip_platforms) == rows_after(rows, *loaded, all.take(done)),
            forall|i: int|
                0 <= i < report.missed_examples@.len() ==> is_explained(
                    *loaded,
                    #[trigger] report.missed_examples@[i],
                ),
        decreases waiting@.len(),
    {
        let ghost before = waiting@;
        if let Some(next) = waiting.pop() {
            let mut journey = next;
            proof {
                assert(before.last() == all.skip(done)[0]);
                assert(next == all[done]);
                assert(waiting@ =~= all.skip(done + 1).reverse());
                assert(all.take(done + 1).drop_last() =~= all.take(done));
                assert(all.take(done + 1).last() == next);
            }
            sort_estimated_calls_by_time(&mut journey);
            match loaded.match_index.match_journey(&journey, &loaded.gtfs) {
                Ok(matched) => {
                    report.note_match(loaded, &journey, &matched, trip_platforms, Ghost(done));
                },
                Err(reason) => {
                    report.note_miss(loaded, journey, reason, Ghost(done));
                },
            }
            proof {
                done = done + 1;
            }
        }
    }
    assert(all.take(done) =~= all) by {
        assert(all.skip(done).reverse().len() == 0);
    }
    report
}

/// A quotient cut off at the point.
pub open spec fn cut_quotient(n: int, d: int) -> int {
    if n >= 0 {
        n / d
    } else {
        -((-n) / d)
    }
}

impl SiriReport {
    /// The mean of the differences of the matches that have one, in seconds.
    pub fn average_difference_seconds(&self) -> (r: Option<i128>)
        ensures
            r is Some <==> self.scored_matches > 0,
            r matches Some(mean) ==> mean == cut_quotient(
                self.total_mean_difference_seconds as int,
                self.scored_matches as int,
            ),
    {
        if self.scored_matches == 0 {
            return None;
        }
        let count: u128 = self.scored_matches as u128;
        let total: i128 = self.total_mean_difference_seconds;
        if total >= 0 {
            let mean: u128 = total as u128 / count;
            proof {
                quotient_bound(total as int, count as int);
            }
            Some(mean as i128)
        } else {
            let size: u128 = (-(total + 1)) as u128 + 1;
            let mean: u128 = size / count;
            proof {
                quotient_bound(size as int, count as int);
            }
            if mean == 0 {
                Some(0)
            } else {
                Some(-((mean - 1) as i128) - 1)
            }
        }
    }

    /// The entries, taken out of the report.
    pub fn take_entities(&mut self) -> (r: (Vec<FeedEntity>, Vec<FeedEntity>))
        ensures
            feed::entries_of(r.0@) == old(self)@.entries,
            feed::entries_of(r.1@) == old(self)@.named_only,
            final(self)@ == (Report { entries: seq![], named_only: seq![], ..old(self)@ }),
            final(self).missed_examples == old(self).missed_examples,
    {
        let mut entities: Vec<FeedEntity> = Vec::new();
        let mut named_only: Vec<FeedEntity> = Vec::new();
        assert(feed::entries_of(entities@) =~= seq![]);
        std::mem::swap(&mut self.entities, &mut entities);
        std::mem::swap(&mut self.named_only, &mut named_only);
        assert(self@ =~= (Report { entries: seq![], named_only: seq![], ..old(self)@ }));
        (entities, named_only)
    }
}

proof fn quotient_bound(n: int, d: int)
    requires
        n >= 0,
        d >= 1,
    ensures
        0 <= n / d <= n,
{
    assert(0 <= n / d <= n) by (nonlinear_arith)
        requires
            n >= 0,
            d >= 1,
    ;
}

/// The entries of the feed: those of the matched journeys, then those of the journeys that name a
/// trip but tell no time, for the trips without an entry.
pub open spec fn feed_entries(report: Report) -> Seq<Entry> {
    feed::merged(report.entries, report.named_only)
}

/// Reads a response: the feed that it makes, what its journeys come to, and the platforms that
/// they name. The entries stand in the feed, and no longer in the report. Without a schedule
/// nothing is read.
pub fn process_siri(
    loaded: Option<&LoadedGtfs>,
    siri: SiriResponse,
    now: i64,
    trip_platforms: &mut DashMap<String, Vec<PlatformInfo>>,
) -> (r: (FeedMessage, SiriReport))
    ensures
        match loaded {
            Some(schedule) => {
                let report = report_of(*schedule, journeys_of(siri));
                &&& r.0.gtfs_realtime_version@ == "2.0"@
                &&& r.0.timestamp == Some(now as u64)
                &&& feed::entries_of(r.0.entity@) == feed_entries(report)
                &&& r.1@ == (Report { entries: seq![], named_only: seq![], ..report })
                &&& state::platform_rows(*final(trip_platforms)) == rows_after(
                    state::platform_rows(*old(trip_platforms)),
                    *schedule,
                    journeys_of(siri),
                )
                &&& forall|i: int|
                    0 <= i < r.1.missed_examples@.len() ==> is_explained(
                        *schedule,
                        #[trigger] r.1.missed_examples@[i],
                    )
            },
            None => {
                &&& r.0.gtfs_realtime_version@ == ""@
                &&& r.0.timestamp is None
                &&& r.0.entity@.len() == 0
                &&& r.1@ == empty_report()
                &&& state::platform_rows(*final(trip_platforms)) == state::platform_rows(
                    *old(trip_platforms),
                )
            },
        },
{
    match loaded {
        Some(schedule) => {
            let mut report = process_journeys(schedule, journeys_in(siri), trip_platforms);
            let (entities, named_only) = report.take_entities();
            let mut builder = FeedBuilder::new();
            builder.append(entities);
            assert(Seq::<Entry>::empty() + feed::entries_of(entities@) =~= feed::entries_of(
                entities@,
            ));
            builder.merge(named_only);
            (FeedMessage::new(now as u64, builder.finish()), report)
        },
        None => (FeedMessage::blank(), SiriReport::new()),
    }
}

/// The law of updates: the feed says something only of stops that the trip of the schedule has.
pub proof fn updates_use_stops_of_the_trip(
    calls: Seq<EstimatedCall>,
    index: Map<Seq<char>, Vec<String>>,
    trip: Option<Trip>,
    at: Seq<usize>,
)
    ensures
        forall|i: int|
            0 <= i < matched_visits(calls, index, trip, at).len() ==> trip is Some
                && gtfs::trip_stops(trip->0).contains(
                (#[trigger] matched_visits(calls, index, trip, at)[i]).stop,
            ),
    decreases calls.len(),
{
    if calls.len() > 0 {
        let front = matched_visits(calls.drop_last(), index, trip, at);
        let all = matched_visits(calls, index, trip, at);
        updates_use_stops_of_the_trip(calls.drop_last(), index, trip, at);
        assert forall|i: int| 0 <= i < all.len() implies trip is Some
            && gtfs::trip_stops(trip->0).contains((#[trigger] all[i]).stop) by {
            if i < front.len() {
                assert(all[i] == front[i]);
            } else {
                let k = matching::observed_of(calls.drop_last(), index).len() as int;
                let stops = gtfs::trip_stops(trip->0);
                assert(stops[at[k] as int] == all[i].stop);
            }
        }
    }
}

/// The law of updates: where a match gives every observed call a stop of the trip, the feed says of
/// each of these stops, in order, what its call says.
pub proof fn every_observed_call_is_told(
    calls: Seq<EstimatedCall>,
    index: Map<Seq<char>, Vec<String>>,
    trip: Trip,
    at: Seq<usize>,
)
    requires
        at.len() >= matching::observed_of(calls, index).len(),
        forall|k: int| 0 <= k < at.len() ==> #[trigger] at[k] < trip.stop_times@.len(),
    ensures
        matched_visits(calls, index, Some(trip), at).len() == matching::observed_of(
            calls,
            index,
        ).len(),
        forall|k: int|
            0 <= k < matched_visits(calls, index, Some(trip), at).len() ==> (
            #[trigger] matched_visits(calls, index, Some(trip), at)[k]).stop
                == trip.stop_times@[at[k] as int].stop_id@,
    decreases calls.len(),
{
    if calls.len() > 0 {
        let front = matched_visits(calls.drop_last(), index, Some(trip), at);
        let all = matched_visits(calls, index, Some(trip), at);
        every_observed_call_is_told(calls.drop_last(), index, trip, at);
        assert forall|k: int| 0 <= k < all.len() implies (#[trigger] all[k]).stop
            == trip.stop_times@[at[k] as int].stop_id@ by {
            if k < front.len() {
                assert(all[k] == front[k]);
            }
        }
    }
}

/// The law of the numbers: every journey is counted as matched by name, as matched by direction or
/// as missed, and every matched one has an entry.
pub proof fn journeys_are_all_counted(loaded: LoadedGtfs, journeys: Seq<EstimatedVehicleJourney>)
    ensures
        ({
            let report = report_of(loaded, journeys);
            &&& report.exact + report.by_direction + report.missed == journeys.len()
            &&& report.entries.len() == report.exact + report.by_direction
            &&& 0 <= report.missed
            &&& 0 <= report.scored <= report.entries.len()
            &&& 0 <= report.by_station <= report.entries.len()
            &&& report.named_only.len() <= report.missed
        }),
    decreases journeys.len(),
{
    if journeys.len() > 0 {
        journeys_are_all_counted(loaded, journeys.drop_last());
    }
}

/// The examples of one name.
pub open spec fn examples_named(examples: Seq<Example>, name: Seq<char>) -> int
    decreases examples.len(),
{
    if examples.len() == 0 {
        0
    } else {
        examples_named(examples.drop_last(), name) + (if examples.last().reason == name {
            1int
        } else {
            0
        })
    }
}

/// The law of the examples: of each name there are as many as journeys were missed under it, up to
/// the limit.
pub proof fn examples_are_limited(
    loaded: LoadedGtfs,
    journeys: Seq<EstimatedVehicleJourney>,
    name: Seq<char>,
)
    requires
        journeys.len() <= usize::MAX,
    ensures
        ({
            let report = report_of(loaded, journeys);
            let missed = times(report.reasons, name);
            &&& 0 <= missed <= journeys.len()
            &&& examples_named(report.examples, name) == (if missed
                < MAX_MISSED_EXAMPLES_PER_REASON {
                missed
            } else {
                MAX_MISSED_EXAMPLES_PER_REASON as int
            })
        }),
    decreases journeys.len(),
{
    if journeys.len() > 0 {
        let front = report_of(loaded, journeys.drop_last());
        let report = report_of(loaded, journeys);
        examples_are_limited(loaded, journeys.drop_last(), name);
        let journey = in_time_order(journeys.last()@);
        if let Err(reason) = loaded.match_index.journey_match(loaded.gtfs, journey) {
            let here = miss_name(loaded, journey, reason);
            examples_are_limited(loaded, journeys.drop_last(), here);
            if times(front.reasons, here) < MAX_MISSED_EXAMPLES_PER_REASON {
                assert(report.examples.drop_last() =~= front.examples);
            }
        }
    }
}

/// The law of entries without stops: only a journey that is missed for want of a usable time has
/// one.
pub proof fn entries_without_stops_lack_times(
    loaded: LoadedGtfs,
    journey: Journey,
    reason: MatchMissReason,
)
    requires
        loaded.match_index.journey_match(loaded.gtfs, journey) == Err::<Match, MatchMissReason>(
            reason,
        ),
    ensures
        named_entry(loaded, journey) is Some ==> reason == MatchMissReason::NoUsableTimes,
{
}

/// The law of the order of calls: to put them in order again changes nothing.
pub proof fn order_of_calls_stays(journey: Journey)
    ensures
        in_time_order(in_time_order(journey)) == in_time_order(journey),
{
    order::ranked_is_a_stable_sort(journey.calls);
    order::ranked_stays(order::ranked(journey.calls));
}

/// The law of the order of calls: those of a journey stay the same, and none has a time before
/// that of an earlier one or, without a time, stands before one with a time.
pub proof fn calls_are_put_in_order(journey: Journey)
    ensures
        in_time_order(journey).calls.to_multiset() == journey.calls.to_multiset(),
        order::is_ranked(in_time_order(journey).calls),
        in_time_order(journey).name == journey.name,
        in_time_order(journey).line == journey.line,
        in_time_order(journey).destination == journey.destination,
{
    order::ranked_is_a_stable_sort(journey.calls);
}

} // verus!
