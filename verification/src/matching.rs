//! Which trip of the schedule a journey is.

use crate::clock::{self, local_day, parse_timestamp, service_days};
use crate::directions::{self, build_directions, DirectionPattern, Pattern};
use crate::gtfs::{Gtfs, Trip};
use crate::lists::{self, list_contains, push_under, sort_lists};
use crate::matching_diagnostics::{self, StopAlignmentDiagnostics, StopAlignmentFailureKind};
use crate::scoring::{self, find_best_alignment, has_valid_alignment, keep_better, Call, Candidate, CandidateScore, ObservedCall};
use crate::services::{self, build_exceptions, build_route_zones, calendar_runs, find_exception, zone_for_route};
use crate::siri_models::{self, reference_value, EstimatedCall, EstimatedVehicleJourney, Journey};
use crate::stops::{self, build_canonical_stop_ids, build_suffix_index, resolve_reference, stops_match, StopMatchMode};
use crate::table::{self, Table};
use crate::text::{self, extract_idfm_id, extract_siri_trip_key, id_suffix, text_eq};
use std::collections::HashMap;
use vstd::prelude::*;

verus! {

/// How a trip was found.
#[derive(Debug, Clone, Copy, PartialEq, Eq, Structural)]
pub enum MatchKind {
    ExactId,
    DirectionAndTime,
}

/// Why no trip was found.
#[derive(Debug, Clone, Copy, PartialEq, Eq, Structural, Hash)]
pub enum MatchMissReason {
    NoObservedCalls,
    NoUsableTimes,
    MissingLineRef,
    RouteNotFound,
    NoStopAlignment,
    InactiveServiceDate,
    NoTimeComparisons,
}

/// The name of a reason.
pub open spec fn reason_name(reason: MatchMissReason) -> Seq<char> {
    match reason {
        MatchMissReason::NoObservedCalls => "no_observed_calls"@,
        MatchMissReason::NoUsableTimes => "no_usable_times"@,
        MatchMissReason::MissingLineRef => "missing_or_invalid_line_ref"@,
        MatchMissReason::RouteNotFound => "route_not_found"@,
        MatchMissReason::NoStopAlignment => "no_stop_alignment"@,
        MatchMissReason::InactiveServiceDate => "inactive_service_date"@,
        MatchMissReason::NoTimeComparisons => "no_time_comparisons"@,
    }
}

impl MatchMissReason {
    /// The name of this reason.
    pub fn as_str(self) -> (r: &'static str)
        ensures
            r@ == reason_name(self),
    {
        match self {
            Self::NoObservedCalls => "no_observed_calls",
            Self::NoUsableTimes => "no_usable_times",
            Self::MissingLineRef => "missing_or_invalid_line_ref",
            Self::RouteNotFound => "route_not_found",
            Self::NoStopAlignment => "no_stop_alignment",
            Self::InactiveServiceDate => "inactive_service_date",
            Self::NoTimeComparisons => "no_time_comparisons",
        }
    }
}

/// The trip that a journey is.
#[derive(Debug, Clone)]
pub struct JourneyMatch {
    pub trip_id: String,
    pub service_date: Option<i32>,
    pub kind: MatchKind,
    pub mean_abs_difference_seconds: Option<i64>,
    /// The stop of the trip that each call with a known stop is at.
    pub stop_indices: Vec<usize>,
    /// Whether the calls were put at stops of the same station for want of the same stops.
    pub used_parent_station_match: bool,
}

/// The trip that a journey is.
#[verifier::ext_equal]
pub ghost struct Match {
    pub trip_id: Seq<char>,
    pub day: Option<i32>,
    pub kind: MatchKind,
    pub mean: Option<int>,
    pub at: Seq<usize>,
    pub by_station: bool,
}

impl View for JourneyMatch {
    type V = Match;

    open spec fn view(&self) -> Match {
        Match {
            trip_id: self.trip_id@,
            day: self.service_date,
            kind: self.kind,
            mean: match self.mean_abs_difference_seconds {
                Some(mean) => Some(mean as int),
                None => None,
            },
            at: self.stop_indices@,
            by_station: self.used_parent_station_match,
        }
    }
}

/// The match that there may be.
pub open spec fn match_view(found: Option<JourneyMatch>) -> Option<Match> {
    match found {
        Some(m) => Some(m@),
        None => None,
    }
}

/// The match that a candidate makes.
pub open spec fn match_of(found: Candidate, kind: MatchKind) -> Match {
    Match {
        trip_id: found.trip_id,
        day: Some(found.day),
        kind,
        mean: Some(found.mean),
        at: found.at,
        by_station: found.by_station,
    }
}

fn to_match(score: CandidateScore, kind: MatchKind) -> (r: JourneyMatch)
    ensures
        r@ == match_of(score@, kind),
{
    JourneyMatch {
        trip_id: score.trip_id,
        service_date: Some(score.service_date),
        kind,
        mean_abs_difference_seconds: Some(score.mean_abs_difference_seconds),
        stop_indices: score.stop_indices,
        used_parent_station_match: score.used_parent_station_match,
    }
}

/// A schedule, arranged for finding trips.
pub struct GtfsMatchIndex {
    pub directions: Table<Vec<DirectionPattern>>,
    pub exact_trip_ids: Table<Vec<String>>,
    pub trips_by_route: Table<Vec<String>>,
    pub route_timezones: Table<String>,
    pub service_exceptions: Table<HashMap<i32, bool>>,
    pub canonical_stop_ids: Table<String>,
    pub stop_ids_by_suffix: Table<Vec<String>>,
}

/// The route of a trip, under which it is filed.
pub open spec fn by_route(trips: Map<Seq<char>, Trip>) -> spec_fn(Seq<char>) -> Seq<char> {
    |id: Seq<char>| trips[id].route_id@
}

/// The keys by which a trip is named: its identifier and the last segment of that.
pub open spec fn named_by(key: Seq<char>) -> spec_fn(Seq<char>) -> bool {
    |id: Seq<char>| id == key || text::last_segment(id) == key
}

/// Whether each list holds, in order, the trips of `ids` that its key names, and no list is empty.
pub open spec fn is_name_index(
    index: Map<Seq<char>, Vec<String>>,
    ids: Seq<Seq<char>>,
) -> bool {
    forall|key: Seq<char>| #[trigger]
        lists::list_at(index, key) == ids.filter(named_by(key)) && (index.contains_key(key)
            <==> ids.filter(named_by(key)).len() > 0)
}

/// Whether an index arranges a schedule.
pub open spec fn is_index_of(index: GtfsMatchIndex, schedule: Gtfs) -> bool {
    &&& directions::is_direction_index(index.directions@, schedule.trips@)
    &&& directions::pattern_total(index.directions@, index.directions.keys()) <= usize::MAX
    &&& is_name_index(index.exact_trip_ids@, schedule.trips.keys())
    &&& lists::is_index_by(
        index.trips_by_route@,
        schedule.trips@.dom(),
        by_route(schedule.trips@),
    )
    &&& services::is_zone_table(
        index.route_timezones@,
        schedule.agencies@,
        schedule.routes@,
    )
    &&& services::is_exception_index(index.service_exceptions@, schedule.calendar_dates@)
    &&& stops::is_station_table(index.canonical_stop_ids@, schedule.stops@)
    &&& lists::is_index_by(
        index.stop_ids_by_suffix@,
        schedule.stops@.dom(),
        stops::by_suffix(),
    )
}

fn build_trips_by_route(trips: &Table<Trip>) -> (r: Table<Vec<String>>)
    ensures
        lists::is_index_by(r@, trips@.dom(), by_route(trips@)),
{
    let rows = trips.len();
    proof {
        table::table_keys(trips);
    }
    let ghost ids = trips.keys();
    let ghost filed = by_route(trips@);
    let mut index: Table<Vec<String>> = Table::new();
    let mut i: usize = 0;
    proof {
        lists::filing_begins(index@, filed);
        assert(ids.take(0) =~= seq![]);
    }
    while i < rows
        invariant
            i <= rows,
            rows == ids.len(),
            ids == trips.keys(),
            filed == by_route(trips@),
            lists::is_filing(index@, ids.take(i as int), filed),
        decreases rows - i,
    {
        let trip_id = trips.key_at(i);
        let trip = trips.value_at(i);
        let ghost before = index@;
        push_under(&mut index, trip.route_id.as_str(), trip_id.clone());
        proof {
            assert(filed(trip_id@) == trip.route_id@);
            lists::filing_goes_on(before, index@, ids.take(i as int), trip_id@, filed);
            assert(ids.take(i + 1) =~= ids.take(i as int).push(trip_id@));
        }
        i = i + 1;
    }
    assert(ids.take(rows as int) =~= ids);
    let ghost filing = index@;
    sort_lists(&mut index);
    proof {
        lists::sorted_filing_is_an_index(filing, index@, ids, filed);
    }
    index
}

fn build_exact_trip_ids(trips: &Table<Trip>) -> (r: Table<Vec<String>>)
    ensures
        is_name_index(r@, trips.keys()),
{
    let rows = trips.len();
    let ghost ids = trips.keys();
    let mut index: Table<Vec<String>> = Table::new();
    let mut i: usize = 0;
    proof {
        reveal(Seq::filter);
        assert forall|key: Seq<char>| #[trigger]
            lists::list_at(index@, key) == ids.take(0).filter(named_by(key)) && (index@.contains_key(
                key,
            ) <==> ids.take(0).filter(named_by(key)).len() > 0) by {
            assert(lists::list_at(index@, key) =~= ids.take(0).filter(named_by(key)));
        }
    }
    while i < rows
        invariant
            i <= rows,
            rows == ids.len(),
            ids == trips.keys(),
            is_name_index(index@, ids.take(i as int)),
        decreases rows - i,
    {
        let trip_id = trips.key_at(i);
        let suffix = id_suffix(trip_id.as_str());
        let ghost before = index@;
        push_under(&mut index, trip_id.as_str(), trip_id.clone());
        let ghost between = index@;
        if !text_eq(suffix, trip_id.as_str()) {
            push_under(&mut index, suffix, trip_id.clone());
        }
        proof {
            reveal(Seq::filter);
            assert(ids.take(i + 1).drop_last() =~= ids.take(i as int));
            assert(ids.take(i + 1).last() == trip_id@);
            assert forall|key: Seq<char>| #[trigger]
                lists::list_at(index@, key) == ids.take(i + 1).filter(named_by(key)) && (
                index@.contains_key(key) <==> ids.take(i + 1).filter(named_by(key)).len() > 0) by {
                assert(lists::list_at(before, key) == ids.take(i as int).filter(named_by(key)));
                assert(lists::list_at(between, key) == (if key == trip_id@ {
                    lists::list_at(before, key).push(trip_id@)
                } else {
                    lists::list_at(before, key)
                }));
                assert(index@.contains_key(key) <==> index@.dom().contains(key));
                assert(between.contains_key(key) <==> between.dom().contains(key));
            }
        }
        i = i + 1;
    }
    assert(ids.take(i as int) =~= ids);
    index
}

impl GtfsMatchIndex {
    /// Arranges a schedule.
    pub fn build(gtfs: &Gtfs) -> (r: Self)
        ensures
            is_index_of(r, *gtfs),
    {
        GtfsMatchIndex {
            directions: build_directions(&gtfs.trips),
            exact_trip_ids: build_exact_trip_ids(&gtfs.trips),
            trips_by_route: build_trips_by_route(&gtfs.trips),
            route_timezones: build_route_zones(&gtfs.agencies, &gtfs.routes),
            service_exceptions: build_exceptions(&gtfs.calendar_dates),
            canonical_stop_ids: build_canonical_stop_ids(&gtfs.stops),
            stop_ids_by_suffix: build_suffix_index(&gtfs.stops),
        }
    }

    /// The stops that a SIRI reference may mean.
    pub fn resolve_siri_stop_ids(&self, value: &str) -> (r: Vec<String>)
        ensures
            text::texts(r@) == stops::meant_stops(self.stop_ids_by_suffix@, value@),
    {
        resolve_reference(&self.stop_ids_by_suffix, value)
    }

    /// The trips of a route, sorted.
    pub fn trip_ids_for_route(&self, route_id: &str) -> (r: &[String])
        ensures
            text::texts(r@) == lists::list_at(self.trips_by_route@, route_id@),
    {
        match self.trips_by_route.get(route_id) {
            Some(ids) => ids.as_slice(),
            None => {
                let none: &[String] = &[];
                assert(text::texts(none@) =~= seq![]);
                none
            },
        }
    }

    /// How many directions the routes have.
    pub fn direction_count(&self) -> (r: usize)
        requires
            directions::pattern_total(self.directions@, self.directions.keys()) <= usize::MAX,
        ensures
            r == directions::pattern_total(self.directions@, self.directions.keys()),
    {
        let rows = self.directions.len();
        let ghost routes = self.directions.keys();
        let mut count: usize = 0;
        let mut i: usize = 0;
        while i < rows
            invariant
                i <= rows,
                rows == routes.len(),
                routes == self.directions.keys(),
                directions::pattern_total(self.directions@, routes) <= usize::MAX,
                count == directions::pattern_total(self.directions@, routes.take(i as int)),
            decreases rows - i,
        {
            proof {
                assert(routes.take(i + 1).drop_last() =~= routes.take(i as int));
                directions::total_grows(self.directions@, routes, i + 1);
            }
            count = count + self.directions.value_at(i).len();
            i = i + 1;
        }
        assert(routes.take(i as int) =~= routes);
        count
    }
}

/// The timestamp that a text writes, if there is a text and it writes one.
pub open spec fn stamp_of(written: Option<String>) -> Option<i64> {
    match written {
        Some(value) => clock::rfc3339_timestamp(value@),
        None => None,
    }
}

/// The first of two timestamps, the second where there is no first.
pub open spec fn first_stamp(first: Option<i64>, second: Option<i64>) -> Option<i64> {
    match first {
        Some(t) => Some(t),
        None => second,
    }
}

/// The timestamp that a text writes, if there is a text and it writes one.
pub fn read_stamp(written: &Option<String>) -> (r: Option<i64>)
    ensures
        r == stamp_of(*written),
        r matches Some(t) ==> clock::is_stamp(t as int),
{
    match written {
        Some(value) => parse_timestamp(value.as_str()),
        None => None,
    }
}

/// What of a call is held against a schedule; nothing of a call at no known stop.
pub open spec fn observed_call(
    call: EstimatedCall,
    index: Map<Seq<char>, Vec<String>>,
) -> Option<Call> {
    match siri_models::reference_text(call.stop_point_ref) {
        Some(reference) => {
            let aliases = stops::meant_stops(index, reference);
            if aliases.len() == 0 {
                None
            } else {
                Some(
                    Call {
                        aliases,
                        arrival: first_stamp(
                            stamp_of(call.aimed_arrival_time),
                            stamp_of(call.expected_arrival_time),
                        ),
                        departure: first_stamp(
                            stamp_of(call.aimed_departure_time),
                            stamp_of(call.expected_departure_time),
                        ),
                    },
                )
            }
        },
        None => None,
    }
}

/// What of the calls is held against a schedule.
pub open spec fn observed_of(
    calls: Seq<EstimatedCall>,
    index: Map<Seq<char>, Vec<String>>,
) -> Seq<Call>
    decreases calls.len(),
{
    if calls.len() == 0 {
        seq![]
    } else {
        let front = observed_of(calls.drop_last(), index);
        match observed_call(calls.last(), index) {
            Some(call) => front.push(call),
            None => front,
        }
    }
}

/// Whether a call has a time.
pub open spec fn has_time(calls: Seq<Call>) -> bool {
    exists|i: int|
        0 <= i < calls.len() && ((#[trigger] calls[i]).arrival is Some || calls[i].departure is Some)
}

/// Whether a call has a time.
pub fn has_matching_time(observed_calls: &Vec<ObservedCall>) -> (r: bool)
    ensures
        r == has_time(scoring::calls_of(observed_calls@)),
{
    let ghost calls = scoring::calls_of(observed_calls@);
    let mut i: usize = 0;
    while i < observed_calls.len()
        invariant
            i <= observed_calls@.len(),
            calls == scoring::calls_of(observed_calls@),
            forall|k: int|
                0 <= k < i ==> (#[trigger] calls[k]).arrival is None && calls[k].departure is None,
        decreases observed_calls@.len() - i,
    {
        assert(calls[i as int] == observed_calls@[i as int]@);
        if observed_calls[i].matching_arrival().is_some()
            || observed_calls[i].matching_departure().is_some() {
            return true;
        }
        i = i + 1;
    }
    false
}

/// The earlier of two timestamps that there may be.
pub open spec fn earlier(a: Option<i64>, b: Option<i64>) -> Option<i64> {
    match (a, b) {
        (Some(s), Some(t)) => if t < s {
            b
        } else {
            a
        },
        (Some(_), None) => a,
        (None, _) => b,
    }
}

/// The earliest time of the calls.
pub open spec fn earliest(calls: Seq<Call>) -> Option<i64>
    decreases calls.len(),
{
    if calls.len() == 0 {
        None
    } else {
        earlier(
            earlier(earliest(calls.drop_last()), calls.last().arrival),
            calls.last().departure,
        )
    }
}

/// The earlier of two timestamps that there may be.
pub fn earlier_of(a: Option<i64>, b: Option<i64>) -> (r: Option<i64>)
    ensures
        r == earlier(a, b),
{
    match a {
        Some(s) => match b {
            Some(t) => if t < s {
                b
            } else {
                a
            },
            None => a,
        },
        None => b,
    }
}

/// The days on which a service may have begun that the calls are seen on: the local day of the
/// earliest time and the two days before it.
pub open spec fn days_of(calls: Seq<Call>, zone: Seq<char>) -> Option<Seq<i32>> {
    match earliest(calls) {
        Some(t) => match clock::zone_day(t, zone) {
            Some(day) => Some(clock::recent_days(day)),
            None => None,
        },
        None => None,
    }
}

/// The days of a list that there may be.
pub open spec fn days_view(days: Option<Vec<i32>>) -> Option<Seq<i32>> {
    match days {
        Some(list) => Some(list@),
        None => None,
    }
}

/// The days on which a service may have begun that the calls are seen on.
pub fn candidate_service_dates(observed_calls: &Vec<ObservedCall>, timezone: &str) -> (r: Option<
    Vec<i32>,
>)
    requires
        scoring::all_timely(scoring::calls_of(observed_calls@)),
    ensures
        days_view(r) == days_of(scoring::calls_of(observed_calls@), timezone@),
{
    let ghost calls = scoring::calls_of(observed_calls@);
    let mut first: Option<i64> = None;
    let mut i: usize = 0;
    while i < observed_calls.len()
        invariant
            i <= observed_calls@.len(),
            calls == scoring::calls_of(observed_calls@),
            scoring::all_timely(calls),
            first == earliest(calls.take(i as int)),
            first matches Some(t) ==> clock::is_stamp(t as int),
        decreases observed_calls@.len() - i,
    {
        assert(calls[i as int] == observed_calls@[i as int]@);
        assert(scoring::is_timely(calls[i as int]));
        assert(calls.take(i + 1).drop_last() =~= calls.take(i as int));
        first = earlier_of(
            earlier_of(first, observed_calls[i].matching_arrival()),
            observed_calls[i].matching_departure(),
        );
        i = i + 1;
    }
    assert(calls.take(i as int) =~= calls);
    match first {
        Some(timestamp) => match local_day(timestamp, timezone) {
            Some(day) => Some(service_days(day)),
            None => None,
        },
        None => None,
    }
}

impl GtfsMatchIndex {
    /// Whether a service runs on a day.
    pub open spec fn is_running(self, schedule: Gtfs, service: Seq<char>, day: i32) -> bool {
        services::runs(
            services::exception_at(self.service_exceptions@, service, day),
            schedule.calendar@,
            service,
            day,
        )
    }

    /// Whether a service runs on a day.
    pub fn service_runs_on(&self, gtfs: &Gtfs, service_id: &str, date: i32) -> (r: bool)
        ensures
            r == self.is_running(*gtfs, service_id@, date),
    {
        match find_exception(&self.service_exceptions, service_id, date) {
            Some(added) => added,
            None => calendar_runs(&gtfs.calendar, service_id, date),
        }
    }

    /// Whether two stops have the same station.
    pub open spec fn same_station(self, left: Seq<char>, right: Seq<char>) -> bool {
        stops::same_stop(left, right, self.canonical_stop_ids@, StopMatchMode::ParentStation)
    }

    /// Whether two stops have the same station.
    pub fn stops_equivalent(&self, left: &str, right: &str) -> (r: bool)
        ensures
            r == self.same_station(left@, right@),
    {
        stops_match(left, right, &self.canonical_stop_ids, StopMatchMode::ParentStation)
    }

    /// The zone of a route.
    pub fn timezone_for_route(&self, route_id: &str) -> (r: String)
        ensures
            r@ == services::zone_at(self.route_timezones@, route_id@),
    {
        zone_for_route(&self.route_timezones, route_id)
    }

    /// What of a journey is held against the schedule.
    pub open spec fn observed(self, journey: Journey) -> Seq<Call> {
        observed_of(journey.calls, self.stop_ids_by_suffix@)
    }

    fn observe(&self, call: &EstimatedCall) -> (r: Option<ObservedCall>)
        ensures
            match r {
                Some(observed) => observed_call(*call, self.stop_ids_by_suffix@) == Some(observed@)
                    && scoring::is_timely(observed@),
                None => observed_call(*call, self.stop_ids_by_suffix@) is None,
            },
    {
        let reference = match reference_value(&call.stop_point_ref) {
            Some(reference) => reference,
            None => return None,
        };
        let stop_aliases = self.resolve_siri_stop_ids(reference);
        assert(text::texts(stop_aliases@).len() == stop_aliases@.len());
        if stop_aliases.len() == 0 {
            return None;
        }
        Some(
            ObservedCall {
                stop_aliases,
                aimed_arrival: read_stamp(&call.aimed_arrival_time),
                aimed_departure: read_stamp(&call.aimed_departure_time),
                expected_arrival: read_stamp(&call.expected_arrival_time),
                expected_departure: read_stamp(&call.expected_departure_time),
            },
        )
    }

    /// What of a journey is held against the schedule.
    pub fn observed_calls(&self, journey: &EstimatedVehicleJourney) -> (r: Vec<ObservedCall>)
        ensures
            scoring::calls_of(r@) == self.observed(journey@),
            scoring::all_timely(scoring::calls_of(r@)),
    {
        let mut found: Vec<ObservedCall> = Vec::new();
        assert(scoring::calls_of(found@) =~= seq![]);
        if let Some(calls) = &journey.estimated_calls {
            let list = &calls.estimated_call;
            let ghost index = self.stop_ids_by_suffix@;
            let mut i: usize = 0;
            while i < list.len()
                invariant
                    i <= list@.len(),
                    index == self.stop_ids_by_suffix@,
                    scoring::calls_of(found@) == observed_of(list@.take(i as int), index),
                    scoring::all_timely(scoring::calls_of(found@)),
                decreases list@.len() - i,
            {
                assert(list@.take(i + 1).drop_last() =~= list@.take(i as int));
                assert(list@.take(i + 1).last() == list@[i as int]);
                let ghost before = scoring::calls_of(found@);
                if let Some(observed) = self.observe(&list[i]) {
                    found.push(observed);
                    assert(scoring::calls_of(found@) =~= before.push(observed@));
                    assert forall|k: int| 0 <= k < found@.len() implies scoring::is_timely(
                        #[trigger] scoring::calls_of(found@)[k],
                    ) by {
                        if k < before.len() {
                            assert(scoring::is_timely(before[k]));
                        }
                    }
                }
                i = i + 1;
            }
            assert(list@.take(i as int) =~= list@);
        }
        found
    }

    /// The candidates that a trip is for the calls on the given days.
    pub open spec fn on_days(
        self,
        schedule: Gtfs,
        trip: Trip,
        calls: Seq<Call>,
        days: Seq<i32>,
        zone: Seq<char>,
        mode: StopMatchMode,
    ) -> Seq<Option<Candidate>> {
        Seq::new(
            days.len(),
            |i: int|
                if self.is_running(schedule, trip.service_id@, days[i]) {
                    scoring::candidate_of(
                        trip,
                        calls,
                        Some(days[i]),
                        Some((days[i], zone)),
                        self.canonical_stop_ids@,
                        mode,
                    )
                } else {
                    None
                },
        )
    }

    /// Whether a service runs on one of the given days.
    pub open spec fn runs_on_one(self, schedule: Gtfs, service: Seq<char>, days: Seq<i32>) -> bool {
        exists|i: int| 0 <= i < days.len() && self.is_running(schedule, service, #[trigger] days[i])
    }

    /// The foremost of the candidates so far and those that a trip is on the given days; and
    /// whether the trip runs on one of them.
    fn keep_best_on_days(
        &self,
        best: Option<CandidateScore>,
        gtfs: &Gtfs,
        trip: &Trip,
        observed_calls: &Vec<ObservedCall>,
        days: &Vec<i32>,
        zone: &str,
        mode: StopMatchMode,
        Ghost(seen): Ghost<Seq<Option<Candidate>>>,
    ) -> (r: (Option<CandidateScore>, bool))
        requires
            scoring::all_timely(scoring::calls_of(observed_calls@)),
            scoring::candidate_view(best) == scoring::foremost(seen),
        ensures
            scoring::candidate_view(r.0) == scoring::foremost(
                seen + self.on_days(
                    *gtfs,
                    *trip,
                    scoring::calls_of(observed_calls@),
                    days@,
                    zone@,
                    mode,
                ),
            ),
            r.1 == self.runs_on_one(*gtfs, trip.service_id@, days@),
    {
        let ghost calls = scoring::calls_of(observed_calls@);
        let ghost here = self.on_days(*gtfs, *trip, calls, days@, zone@, mode);
        let mut best = best;
        let mut active = false;
        let mut i: usize = 0;
        assert(seen + here.take(0) =~= seen);
        while i < days.len()
            invariant
                i <= days@.len(),
                calls == scoring::calls_of(observed_calls@),
                here == self.on_days(*gtfs, *trip, calls, days@, zone@, mode),
                scoring::all_timely(calls),
                scoring::candidate_view(best) == scoring::foremost(seen + here.take(i as int)),
                active == self.runs_on_one(*gtfs, trip.service_id@, days@.take(i as int)),
            decreases days@.len() - i,
        {
            let day: i32 = days[i];
            let running = self.service_runs_on(gtfs, trip.service_id.as_str(), day);
            let new = if running {
                find_best_alignment(
                    trip,
                    observed_calls,
                    Some(day),
                    Some(zone),
                    &self.canonical_stop_ids,
                    mode,
                )
            } else {
                None
            };
            assert((seen + here.take(i + 1)).drop_last() =~= seen + here.take(i as int));
            assert((seen + here.take(i + 1)).last() == scoring::candidate_view(new));
            best = keep_better(best, new);
            proof {
                let before = days@.take(i as int);
                let after = days@.take(i + 1);
                if self.runs_on_one(*gtfs, trip.service_id@, after) {
                    let k = choose|k: int|
                        0 <= k < after.len() && self.is_running(
                            *gtfs,
                            trip.service_id@,
                            #[trigger] after[k],
                        );
                    if k < i {
                        assert(before[k] == after[k]);
                    }
                }
                if self.runs_on_one(*gtfs, trip.service_id@, before) {
                    let k = choose|k: int|
                        0 <= k < before.len() && self.is_running(
                            *gtfs,
                            trip.service_id@,
                            #[trigger] before[k],
                        );
                    assert(before[k] == after[k]);
                }
                assert(after[i as int] == day);
            }
            active = active || running;
            i = i + 1;
        }
        assert(here.take(i as int) =~= here);
        assert(days@.take(i as int) =~= days@);
        (best, active)
    }

    /// The foremost candidate that a trip is for the calls: by the same stops, else by the same
    /// stations.
    pub open spec fn trip_candidate(
        self,
        schedule: Gtfs,
        trip: Trip,
        calls: Seq<Call>,
        zone: Seq<char>,
    ) -> Option<Candidate> {
        if !has_time(calls) {
            None
        } else {
            match days_of(calls, zone) {
                Some(days) => {
                    let exact = scoring::foremost(
                        self.on_days(schedule, trip, calls, days, zone, StopMatchMode::Exact),
                    );
                    if exact is Some {
                        exact
                    } else {
                        scoring::foremost(
                            self.on_days(
                                schedule,
                                trip,
                                calls,
                                days,
                                zone,
                                StopMatchMode::ParentStation,
                            ),
                        )
                    }
                },
                None => None,
            }
        }
    }

    /// The foremost candidate that a trip is for the calls.
    pub fn score_trip(
        &self,
        trip: &Trip,
        observed_calls: &Vec<ObservedCall>,
        timezone: &str,
        gtfs: &Gtfs,
    ) -> (r: Option<CandidateScore>)
        requires
            scoring::all_timely(scoring::calls_of(observed_calls@)),
        ensures
            scoring::candidate_view(r) == self.trip_candidate(
                *gtfs,
                *trip,
                scoring::calls_of(observed_calls@),
                timezone@,
            ),
    {
        if !has_matching_time(observed_calls) {
            return None;
        }
        let days = match candidate_service_dates(observed_calls, timezone) {
            Some(days) => days,
            None => return None,
        };
        let ghost calls = scoring::calls_of(observed_calls@);
        let ghost none: Seq<Option<Candidate>> = seq![];
        proof {
            let exact = self.on_days(*gtfs, *trip, calls, days@, timezone@, StopMatchMode::Exact);
            let by_station = self.on_days(
                *gtfs,
                *trip,
                calls,
                days@,
                timezone@,
                StopMatchMode::ParentStation,
            );
            assert(none + exact =~= exact);
            assert(none + by_station =~= by_station);
        }
        let (exact, _) = self.keep_best_on_days(
            None,
            gtfs,
            trip,
            observed_calls,
            &days,
            timezone,
            StopMatchMode::Exact,
            Ghost(none),
        );
        if exact.is_some() {
            return exact;
        }
        let (by_station, _) = self.keep_best_on_days(
            None,
            gtfs,
            trip,
            observed_calls,
            &days,
            timezone,
            StopMatchMode::ParentStation,
            Ghost(none),
        );
        by_station
    }
}

/// Which stops the calls are at by the earliest alignment with a trip, and whether by station.
pub ghost struct Seats {
    pub at: Seq<usize>,
    pub by_station: bool,
}

/// The first of the days on which a service runs.
pub open spec fn first_running(
    index: GtfsMatchIndex,
    schedule: Gtfs,
    service: Seq<char>,
    days: Seq<i32>,
) -> Option<i32>
    decreases days.len(),
{
    if days.len() == 0 {
        None
    } else if index.is_running(schedule, service, days[0]) {
        Some(days[0])
    } else {
        first_running(index, schedule, service, days.drop_first())
    }
}

/// Whether a stop has the station of one of the destinations.
pub open spec fn is_destination(
    index: GtfsMatchIndex,
    stop: Seq<char>,
    destinations: Seq<Seq<char>>,
) -> bool {
    exists|i: int|
        0 <= i < destinations.len() && index.same_station(stop, #[trigger] destinations[i])
}

/// Whether a trip is of the given route; any trip is where none is given.
pub open spec fn of_route(
    trips: Map<Seq<char>, Trip>,
    route: Option<Seq<char>>,
) -> spec_fn(Seq<char>) -> bool {
    |id: Seq<char>|
        match route {
            Some(wanted) => trips.contains_key(id) && trips[id].route_id@ == wanted,
            None => true,
        }
}

/// Whether a trip ends at the station of one of the destinations.
pub open spec fn ends_at(
    index: GtfsMatchIndex,
    trips: Map<Seq<char>, Trip>,
    destinations: Seq<Seq<char>>,
) -> spec_fn(Seq<char>) -> bool {
    |id: Seq<char>|
        trips.contains_key(id) && trips[id].stop_times@.len() > 0 && is_destination(
            index,
            trips[id].stop_times@.last().stop_id@,
            destinations,
        )
}

/// The trips among which a journey with a trip identifier is looked for: those of its line and,
/// if any of them do, those that end at its destination.
pub open spec fn named_trips(
    index: GtfsMatchIndex,
    schedule: Gtfs,
    named: Seq<Seq<char>>,
    route: Option<Seq<char>>,
    destinations: Seq<Seq<char>>,
) -> Seq<Seq<char>> {
    let on_line = named.filter(of_route(schedule.trips@, route));
    let bound = on_line.filter(ends_at(index, schedule.trips@, destinations));
    if destinations.len() > 0 && bound.len() > 0 {
        bound
    } else {
        on_line
    }
}

/// The stops that the reference of a destination may mean.
pub open spec fn destinations_of(
    index: GtfsMatchIndex,
    journey: Journey,
) -> Seq<Seq<char>> {
    match journey.destination {
        Some(reference) => stops::meant_stops(index.stop_ids_by_suffix@, reference),
        None => seq![],
    }
}

/// The route that the reference of a line means.
pub open spec fn route_of(journey: Journey) -> Option<Seq<char>> {
    match journey.line {
        Some(reference) => text::idfm_id(reference),
        None => None,
    }
}

/// The key of the trip that a journey names.
pub open spec fn key_of(journey: Journey) -> Option<Seq<char>> {
    match journey.name {
        Some(reference) => text::trip_key(reference),
        None => None,
    }
}

/// The route that the reference of a line means.
pub fn target_route(journey: &EstimatedVehicleJourney) -> (r: Option<String>)
    ensures
        text::opt_string(r) == route_of(journey@),
{
    match reference_value(&journey.line_ref) {
        Some(reference) => extract_idfm_id(reference),
        None => None,
    }
}

impl GtfsMatchIndex {
    /// Where the calls are by the earliest alignment with a trip: by the same stops, else by the
    /// same stations.
    pub open spec fn seats(self, trip: Trip, calls: Seq<Call>) -> Option<Seats> {
        let stations = self.canonical_stop_ids@;
        match scoring::candidate_of(trip, calls, None, None, stations, StopMatchMode::Exact) {
            Some(found) => Some(Seats { at: found.at, by_station: false }),
            None => match scoring::candidate_of(
                trip,
                calls,
                None,
                None,
                stations,
                StopMatchMode::ParentStation,
            ) {
                Some(found) => Some(Seats { at: found.at, by_station: true }),
                None => None,
            },
        }
    }

    /// Where the calls are by the earliest alignment with a trip.
    pub fn first_alignment_for_trip(
        &self,
        trip: &Trip,
        observed_calls: &Vec<ObservedCall>,
    ) -> (r: Option<(Vec<usize>, bool)>)
        requires
            scoring::all_timely(scoring::calls_of(observed_calls@)),
        ensures
            match r {
                Some((at, by_station)) => self.seats(*trip, scoring::calls_of(observed_calls@))
                    == Some(Seats { at: at@, by_station }),
                None => self.seats(*trip, scoring::calls_of(observed_calls@)) is None,
            },
    {
        if let Some(score) = find_best_alignment(
            trip,
            observed_calls,
            None,
            None,
            &self.canonical_stop_ids,
            StopMatchMode::Exact,
        ) {
            return Some((score.stop_indices, false));
        }
        match find_best_alignment(
            trip,
            observed_calls,
            None,
            None,
            &self.canonical_stop_ids,
            StopMatchMode::ParentStation,
        ) {
            Some(score) => Some((score.stop_indices, true)),
            None => None,
        }
    }

    /// The service day of a trip that the calls are seen on.
    pub open spec fn inferred_day(
        self,
        schedule: Gtfs,
        trip: Trip,
        calls: Seq<Call>,
        zone: Seq<char>,
    ) -> Option<i32> {
        match days_of(calls, zone) {
            Some(days) => first_running(self, schedule, trip.service_id@, days),
            None => None,
        }
    }

    /// The service day of a trip that the calls are seen on.
    pub fn infer_service_date(
        &self,
        trip: &Trip,
        observed_calls: &Vec<ObservedCall>,
        timezone: &str,
        gtfs: &Gtfs,
    ) -> (r: Option<i32>)
        requires
            scoring::all_timely(scoring::calls_of(observed_calls@)),
        ensures
            r == self.inferred_day(*gtfs, *trip, scoring::calls_of(observed_calls@), timezone@),
    {
        let days = match candidate_service_dates(observed_calls, timezone) {
            Some(days) => days,
            None => return None,
        };
        let mut i: usize = 0;
        assert(days@.skip(0) =~= days@);
        while i < days.len()
            invariant
                i <= days@.len(),
                days_of(scoring::calls_of(observed_calls@), timezone@) == Some(days@),
                first_running(*self, *gtfs, trip.service_id@, days@) == first_running(
                    *self,
                    *gtfs,
                    trip.service_id@,
                    days@.skip(i as int),
                ),
            decreases days@.len() - i,
        {
            assert(days@.skip(i as int)[0] == days@[i as int]);
            assert(days@.skip(i as int).drop_first() =~= days@.skip(i + 1));
            if self.service_runs_on(gtfs, trip.service_id.as_str(), days[i]) {
                return Some(days[i]);
            }
            i = i + 1;
        }
        None
    }

    fn is_one_of(&self, stop_id: &str, destinations: &Vec<String>) -> (r: bool)
        ensures
            r == is_destination(*self, stop_id@, text::texts(destinations@)),
    {
        let ghost all = text::texts(destinations@);
        let mut i: usize = 0;
        while i < destinations.len()
            invariant
                i <= destinations@.len(),
                all == text::texts(destinations@),
                forall|k: int| 0 <= k < i ==> !self.same_station(stop_id@, #[trigger] all[k]),
            decreases destinations@.len() - i,
        {
            assert(all[i as int] == destinations@[i as int]@);
            if self.stops_equivalent(stop_id, destinations[i].as_str()) {
                return true;
            }
            i = i + 1;
        }
        false
    }

    fn destinations(&self, journey: &EstimatedVehicleJourney) -> (r: Vec<String>)
        ensures
            text::texts(r@) == destinations_of(*self, journey@),
    {
        match reference_value(&journey.destination_ref) {
            Some(reference) => self.resolve_siri_stop_ids(reference),
            None => {
                let none: Vec<String> = Vec::new();
                assert(text::texts(none@) =~= seq![]);
                none
            },
        }
    }

    fn trips_on_line(&self, gtfs: &Gtfs, named: &Vec<String>, route: &Option<String>) -> (r: Vec<
        String,
    >)
        ensures
            text::texts(r@) == text::texts(named@).filter(
                of_route(gtfs.trips@, text::opt_string(*route)),
            ),
    {
        let ghost all = text::texts(named@);
        let ghost wanted = of_route(gtfs.trips@, text::opt_string(*route));
        let mut found: Vec<String> = Vec::new();
        let mut i: usize = 0;
        proof {
            reveal(Seq::filter);
            assert(text::texts(found@) =~= all.take(0).filter(wanted));
        }
        while i < named.len()
            invariant
                i <= named@.len(),
                all == text::texts(named@),
                wanted == of_route(gtfs.trips@, text::opt_string(*route)),
                text::texts(found@) == all.take(i as int).filter(wanted),
            decreases named@.len() - i,
        {
            let trip_id = &named[i];
            let on_line = match route {
                Some(route_id) => match gtfs.trips.get(trip_id.as_str()) {
                    Some(trip) => text_eq(trip.route_id.as_str(), route_id.as_str()),
                    None => false,
                },
                None => true,
            };
            let ghost before = text::texts(found@);
            if on_line {
                found.push(trip_id.clone());
                assert(text::texts(found@) =~= before.push(trip_id@));
            }
            proof {
                reveal(Seq::filter);
                assert(all.take(i + 1).drop_last() =~= all.take(i as int));
                assert(all.take(i + 1).last() == trip_id@);
                assert(wanted(trip_id@) == on_line);
            }
            i = i + 1;
        }
        assert(all.take(i as int) =~= all);
        found
    }

    fn trips_bound_for(
        &self,
        gtfs: &Gtfs,
        trip_ids: &Vec<String>,
        destinations: &Vec<String>,
    ) -> (r: Vec<String>)
        ensures
            text::texts(r@) == text::texts(trip_ids@).filter(
                ends_at(*self, gtfs.trips@, text::texts(destinations@)),
            ),
    {
        let ghost all = text::texts(trip_ids@);
        let ghost wanted = ends_at(*self, gtfs.trips@, text::texts(destinations@));
        let mut found: Vec<String> = Vec::new();
        let mut i: usize = 0;
        proof {
            reveal(Seq::filter);
            assert(text::texts(found@) =~= all.take(0).filter(wanted));
        }
        while i < trip_ids.len()
            invariant
                i <= trip_ids@.len(),
                all == text::texts(trip_ids@),
                wanted == ends_at(*self, gtfs.trips@, text::texts(destinations@)),
                text::texts(found@) == all.take(i as int).filter(wanted),
            decreases trip_ids@.len() - i,
        {
            let trip_id = &trip_ids[i];
            let bound = match gtfs.trips.get(trip_id.as_str()) {
                Some(trip) => trip.stop_times.len() > 0 && self.is_one_of(
                    trip.stop_times[trip.stop_times.len() - 1].stop_id.as_str(),
                    destinations,
                ),
                None => false,
            };
            let ghost before = text::texts(found@);
            if bound {
                found.push(trip_id.clone());
                assert(text::texts(found@) =~= before.push(trip_id@));
            }
            proof {
                reveal(Seq::filter);
                assert(all.take(i + 1).drop_last() =~= all.take(i as int));
                assert(all.take(i + 1).last() == trip_id@);
                assert(wanted(trip_id@) == bound);
            }
            i = i + 1;
        }
        assert(all.take(i as int) =~= all);
        found
    }

    /// The candidates that the trips are for the calls.
    pub open spec fn candidates(
        self,
        schedule: Gtfs,
        ids: Seq<Seq<char>>,
        calls: Seq<Call>,
    ) -> Seq<Option<Candidate>> {
        Seq::new(
            ids.len(),
            |i: int|
                if schedule.trips@.contains_key(ids[i]) {
                    let trip = schedule.trips@[ids[i]];
                    self.trip_candidate(
                        schedule,
                        trip,
                        calls,
                        services::zone_at(self.route_timezones@, trip.route_id@),
                    )
                } else {
                    None
                },
        )
    }

    fn best_candidate(
        &self,
        gtfs: &Gtfs,
        trip_ids: &Vec<String>,
        observed_calls: &Vec<ObservedCall>,
    ) -> (r: Option<CandidateScore>)
        requires
            scoring::all_timely(scoring::calls_of(observed_calls@)),
        ensures
            scoring::candidate_view(r) == scoring::foremost(
                self.candidates(
                    *gtfs,
                    text::texts(trip_ids@),
                    scoring::calls_of(observed_calls@),
                ),
            ),
    {
        let ghost calls = scoring::calls_of(observed_calls@);
        let ghost all = self.candidates(*gtfs, text::texts(trip_ids@), calls);
        let mut best: Option<CandidateScore> = None;
        let mut i: usize = 0;
        while i < trip_ids.len()
            invariant
                i <= trip_ids@.len(),
                calls == scoring::calls_of(observed_calls@),
                scoring::all_timely(calls),
                all == self.candidates(*gtfs, text::texts(trip_ids@), calls),
                scoring::candidate_view(best) == scoring::foremost(all.take(i as int)),
            decreases trip_ids@.len() - i,
        {
            let new = match gtfs.trips.get(trip_ids[i].as_str()) {
                Some(trip) => {
                    let zone = self.timezone_for_route(trip.route_id.as_str());
                    self.score_trip(trip, observed_calls, zone.as_str(), gtfs)
                },
                None => None,
            };
            assert(all.take(i + 1).drop_last() =~= all.take(i as int));
            assert(all.take(i + 1).last() == scoring::candidate_view(new));
            best = keep_better(best, new);
            i = i + 1;
        }
        assert(all.take(i as int) =~= all);
        best
    }

    /// The trips that a journey may be by the name that it has.
    pub open spec fn named_ids(self, schedule: Gtfs, journey: Journey) -> Seq<Seq<char>> {
        match key_of(journey) {
            Some(key) => named_trips(
                self,
                schedule,
                lists::list_at(self.exact_trip_ids@, key),
                route_of(journey),
                destinations_of(self, journey),
            ),
            None => seq![],
        }
    }

    /// The match of a journey by the trip that it names: the foremost candidate among these trips;
    /// where there is none, the first of them, if the calls have an alignment with it.
    pub open spec fn exact_match(
        self,
        schedule: Gtfs,
        journey: Journey,
        calls: Seq<Call>,
    ) -> Option<Match> {
        let ids = self.named_ids(schedule, journey);
        match scoring::foremost(self.candidates(schedule, ids, calls)) {
            Some(found) => Some(match_of(found, MatchKind::ExactId)),
            None => if ids.len() > 0 && schedule.trips@.contains_key(ids[0]) {
                self.undated_match(schedule, ids[0], schedule.trips@[ids[0]], calls)
            } else {
                None
            },
        }
    }

    /// The match that a trip makes without a comparison of times.
    pub open spec fn undated_match(
        self,
        schedule: Gtfs,
        id: Seq<char>,
        trip: Trip,
        calls: Seq<Call>,
    ) -> Option<Match> {
        match self.seats(trip, calls) {
            Some(seats) => Some(
                Match {
                    trip_id: id,
                    day: self.inferred_day(
                        schedule,
                        trip,
                        calls,
                        services::zone_at(self.route_timezones@, trip.route_id@),
                    ),
                    kind: MatchKind::ExactId,
                    mean: None,
                    at: seats.at,
                    by_station: seats.by_station,
                },
            ),
            None => None,
        }
    }

    /// The trips that a journey may be by the name that it has.
    pub fn named_candidates(&self, journey: &EstimatedVehicleJourney, gtfs: &Gtfs) -> (r: Vec<
        String,
    >)
        ensures
            text::texts(r@) == self.named_ids(*gtfs, journey@),
    {
        let none: Vec<String> = Vec::new();
        assert(text::texts(none@) =~= seq![]);
        let exact_key = match reference_value(&journey.dated_vehicle_journey_ref) {
            Some(reference) => match extract_siri_trip_key(reference) {
                Some(key) => key,
                None => return none,
            },
            None => return none,
        };
        let indexed_trip_ids = match self.exact_trip_ids.get(exact_key) {
            Some(ids) => ids,
            None => {
                proof {
                    reveal(Seq::filter);
                }
                return none;
            },
        };
        let target_route_id = target_route(journey);
        let target_destination = self.destinations(journey);
        assert(text::texts(target_destination@).len() == target_destination@.len());
        let candidates = self.trips_on_line(gtfs, indexed_trip_ids, &target_route_id);
        if target_destination.len() > 0 {
            let bound = self.trips_bound_for(gtfs, &candidates, &target_destination);
            assert(text::texts(bound@).len() == bound@.len());
            if bound.len() > 0 {
                return bound;
            }
        }
        candidates
    }

    /// The match of a journey by the trip that it names.
    pub fn match_exact_id(
        &self,
        journey: &EstimatedVehicleJourney,
        gtfs: &Gtfs,
        observed_calls: &Vec<ObservedCall>,
    ) -> (r: Option<JourneyMatch>)
        requires
            scoring::all_timely(scoring::calls_of(observed_calls@)),
        ensures
            match_view(r) == self.exact_match(
                *gtfs,
                journey@,
                scoring::calls_of(observed_calls@),
            ),
    {
        let candidates = self.named_candidates(journey, gtfs);
        assert(text::texts(candidates@).len() == candidates@.len());
        if let Some(score) = self.best_candidate(gtfs, &candidates, observed_calls) {
            return Some(to_match(score, MatchKind::ExactId));
        }
        if candidates.len() == 0 {
            return None;
        }
        let trip_id = candidates[0].clone();
        assert(text::texts(candidates@)[0] == trip_id@);
        let trip = match gtfs.trips.get(trip_id.as_str()) {
            Some(trip) => trip,
            None => return None,
        };
        let timezone = self.timezone_for_route(trip.route_id.as_str());
        let service_date = self.infer_service_date(trip, observed_calls, timezone.as_str(), gtfs);
        match self.first_alignment_for_trip(trip, observed_calls) {
            Some((stop_indices, used_parent_station_match)) => Some(
                JourneyMatch {
                    trip_id,
                    service_date,
                    kind: MatchKind::ExactId,
                    mean_abs_difference_seconds: None,
                    stop_indices,
                    used_parent_station_match,
                },
            ),
            None => None,
        }
    }
}

/// The patterns of a list of references.
pub open spec fn refs_of(list: Seq<&DirectionPattern>) -> Seq<Pattern> {
    Seq::new(list.len(), |i: int| list[i]@)
}

/// Whether a pattern ends at one of the destinations.
pub open spec fn ends_exactly(destinations: Seq<Seq<char>>) -> spec_fn(Pattern) -> bool {
    |pattern: Pattern| destinations.contains(pattern.destination)
}

/// Whether a pattern ends at the station of one of the destinations.
pub open spec fn ends_nearby(
    index: GtfsMatchIndex,
    destinations: Seq<Seq<char>>,
) -> spec_fn(Pattern) -> bool {
    |pattern: Pattern| is_destination(index, pattern.destination, destinations)
}

/// The patterns among which a journey is looked for: those that end at its destination; if none
/// does, those that end at its station; if none does either, all.
pub open spec fn aimed_patterns(
    index: GtfsMatchIndex,
    patterns: Seq<Pattern>,
    destinations: Seq<Seq<char>>,
) -> Seq<Pattern> {
    let exact = patterns.filter(ends_exactly(destinations));
    let nearby = patterns.filter(ends_nearby(index, destinations));
    if destinations.len() == 0 {
        patterns
    } else if exact.len() > 0 {
        exact
    } else if nearby.len() > 0 {
        nearby
    } else {
        patterns
    }
}

/// Whether the calls have an alignment with one of the patterns.
pub open spec fn one_fits(
    index: GtfsMatchIndex,
    patterns: Seq<Pattern>,
    calls: Seq<Call>,
    mode: StopMatchMode,
) -> bool {
    exists|i: int|
        0 <= i < patterns.len() && scoring::calls_fit(
            calls,
            (#[trigger] patterns[i]).stops,
            index.canonical_stop_ids@,
            mode,
        )
}

/// Whether one of the trips runs on one of the days.
pub open spec fn one_runs(
    index: GtfsMatchIndex,
    schedule: Gtfs,
    ids: Seq<Seq<char>>,
    days: Seq<i32>,
) -> bool {
    exists|i: int|
        0 <= i < ids.len() && schedule.trips@.contains_key(#[trigger] ids[i]) && index.runs_on_one(
            schedule,
            schedule.trips@[ids[i]].service_id@,
            days,
        )
}

/// Whether, of a pattern that the calls have an alignment with, a trip runs on one of the days.
pub open spec fn one_fits_and_runs(
    index: GtfsMatchIndex,
    schedule: Gtfs,
    patterns: Seq<Pattern>,
    calls: Seq<Call>,
    days: Seq<i32>,
    mode: StopMatchMode,
) -> bool {
    exists|i: int|
        0 <= i < patterns.len() && scoring::calls_fit(
            calls,
            (#[trigger] patterns[i]).stops,
            index.canonical_stop_ids@,
            mode,
        ) && one_runs(index, schedule, patterns[i].trips, days)
}

/// The candidates that the trips are for the calls on the given days.
pub open spec fn candidates_of_trips(
    index: GtfsMatchIndex,
    schedule: Gtfs,
    ids: Seq<Seq<char>>,
    calls: Seq<Call>,
    days: Seq<i32>,
    zone: Seq<char>,
    mode: StopMatchMode,
) -> Seq<Option<Candidate>>
    decreases ids.len(),
{
    if ids.len() == 0 {
        seq![]
    } else {
        let front = candidates_of_trips(
            index,
            schedule,
            ids.drop_last(),
            calls,
            days,
            zone,
            mode,
        );
        if schedule.trips@.contains_key(ids.last()) {
            front + index.on_days(schedule, schedule.trips@[ids.last()], calls, days, zone, mode)
        } else {
            front
        }
    }
}

/// The candidates that the trips of those patterns are that the calls have an alignment with.
pub open spec fn candidates_of_patterns(
    index: GtfsMatchIndex,
    schedule: Gtfs,
    patterns: Seq<Pattern>,
    calls: Seq<Call>,
    days: Seq<i32>,
    zone: Seq<char>,
    mode: StopMatchMode,
) -> Seq<Option<Candidate>>
    decreases patterns.len(),
{
    if patterns.len() == 0 {
        seq![]
    } else {
        let front = candidates_of_patterns(
            index,
            schedule,
            patterns.drop_last(),
            calls,
            days,
            zone,
            mode,
        );
        if scoring::calls_fit(calls, patterns.last().stops, index.canonical_stop_ids@, mode) {
            front + candidates_of_trips(
                index,
                schedule,
                patterns.last().trips,
                calls,
                days,
                zone,
                mode,
            )
        } else {
            front
        }
    }
}

/// The match of a journey by its direction and its times: the foremost candidate by the same
/// stops, else by the same stations, else the reason why there is none.
pub open spec fn direction_match(
    index: GtfsMatchIndex,
    schedule: Gtfs,
    journey: Journey,
    calls: Seq<Call>,
) -> Result<Match, MatchMissReason> {
    if calls.len() == 0 {
        Err(MatchMissReason::NoObservedCalls)
    } else if !has_time(calls) {
        Err(MatchMissReason::NoUsableTimes)
    } else {
        match route_of(journey) {
            None => Err(MatchMissReason::MissingLineRef),
            Some(route) => if !index.directions@.contains_key(route) {
                Err(MatchMissReason::RouteNotFound)
            } else {
                let zone = services::zone_at(index.route_timezones@, route);
                let patterns = aimed_patterns(
                    index,
                    directions::patterns_at(index.directions@, route),
                    destinations_of(index, journey),
                );
                match days_of(calls, zone) {
                    None => Err(MatchMissReason::NoUsableTimes),
                    Some(days) => match_in(index, schedule, patterns, calls, days, zone),
                }
            },
        }
    }
}

/// The match of the calls among the trips of the patterns on the given days, or the reason why
/// there is none.
pub open spec fn match_in(
    index: GtfsMatchIndex,
    schedule: Gtfs,
    patterns: Seq<Pattern>,
    calls: Seq<Call>,
    days: Seq<i32>,
    zone: Seq<char>,
) -> Result<Match, MatchMissReason> {
    let exact = StopMatchMode::Exact;
    let nearby = StopMatchMode::ParentStation;
    match scoring::foremost(
        candidates_of_patterns(index, schedule, patterns, calls, days, zone, exact),
    ) {
        Some(found) => Ok(match_of(found, MatchKind::DirectionAndTime)),
        None => match scoring::foremost(
            candidates_of_patterns(index, schedule, patterns, calls, days, zone, nearby),
        ) {
            Some(found) => Ok(match_of(found, MatchKind::DirectionAndTime)),
            None => if !one_fits(index, patterns, calls, exact) && !one_fits(
                index,
                patterns,
                calls,
                nearby,
            ) {
                Err(MatchMissReason::NoStopAlignment)
            } else if !one_fits_and_runs(index, schedule, patterns, calls, days, exact)
                && !one_fits_and_runs(index, schedule, patterns, calls, days, nearby) {
                Err(MatchMissReason::InactiveServiceDate)
            } else {
                Err(MatchMissReason::NoTimeComparisons)
            },
        },
    }
}

/// A match or the reason why there is none.
pub open spec fn result_view(found: Result<JourneyMatch, MatchMissReason>) -> Result<
    Match,
    MatchMissReason,
> {
    match found {
        Ok(m) => Ok(m@),
        Err(reason) => Err(reason),
    }
}

fn all_patterns(patterns: &Vec<DirectionPattern>) -> (r: Vec<&DirectionPattern>)
    ensures
        refs_of(r@) == directions::patterns_of(patterns@),
{
    let mut out: Vec<&DirectionPattern> = Vec::new();
    let mut i: usize = 0;
    while i < patterns.len()
        invariant
            i <= patterns@.len(),
            out@.len() == i,
            forall|k: int| 0 <= k < i ==> (#[trigger] out@[k])@ == patterns@[k]@,
        decreases patterns@.len() - i,
    {
        out.push(&patterns[i]);
        i = i + 1;
    }
    assert(refs_of(out@) =~= directions::patterns_of(patterns@));
    out
}

fn patterns_ending_exactly<'a>(
    patterns: &'a Vec<DirectionPattern>,
    destinations: &Vec<String>,
) -> (r: Vec<&'a DirectionPattern>)
    ensures
        refs_of(r@) == directions::patterns_of(patterns@).filter(
            ends_exactly(text::texts(destinations@)),
        ),
{
    let ghost all = directions::patterns_of(patterns@);
    let ghost wanted = ends_exactly(text::texts(destinations@));
    let mut found: Vec<&DirectionPattern> = Vec::new();
    let mut i: usize = 0;
    proof {
        reveal(Seq::filter);
        assert(refs_of(found@) =~= all.take(0).filter(wanted));
    }
    while i < patterns.len()
        invariant
            i <= patterns@.len(),
            all == directions::patterns_of(patterns@),
            wanted == ends_exactly(text::texts(destinations@)),
            refs_of(found@) == all.take(i as int).filter(wanted),
        decreases patterns@.len() - i,
    {
        let pattern = &patterns[i];
        let ends = list_contains(destinations, pattern.destination_stop_id.as_str());
        let ghost before = refs_of(found@);
        if ends {
            found.push(pattern);
            assert(refs_of(found@) =~= before.push(pattern@));
        }
        proof {
            reveal(Seq::filter);
            assert(all.take(i + 1).drop_last() =~= all.take(i as int));
            assert(all.take(i + 1).last() == pattern@);
            assert(wanted(pattern@) == ends);
        }
        i = i + 1;
    }
    assert(all.take(i as int) =~= all);
    found
}

impl GtfsMatchIndex {
    fn patterns_ending_nearby<'a>(
        &self,
        patterns: &'a Vec<DirectionPattern>,
        destinations: &Vec<String>,
    ) -> (r: Vec<&'a DirectionPattern>)
        ensures
            refs_of(r@) == directions::patterns_of(patterns@).filter(
                ends_nearby(*self, text::texts(destinations@)),
            ),
    {
        let ghost all = directions::patterns_of(patterns@);
        let ghost wanted = ends_nearby(*self, text::texts(destinations@));
        let mut found: Vec<&DirectionPattern> = Vec::new();
        let mut i: usize = 0;
        proof {
            reveal(Seq::filter);
            assert(refs_of(found@) =~= all.take(0).filter(wanted));
        }
        while i < patterns.len()
            invariant
                i <= patterns@.len(),
                all == directions::patterns_of(patterns@),
                wanted == ends_nearby(*self, text::texts(destinations@)),
                refs_of(found@) == all.take(i as int).filter(wanted),
            decreases patterns@.len() - i,
        {
            let pattern = &patterns[i];
            let ends = self.is_one_of(pattern.destination_stop_id.as_str(), destinations);
            let ghost before = refs_of(found@);
            if ends {
                found.push(pattern);
                assert(refs_of(found@) =~= before.push(pattern@));
            }
            proof {
                reveal(Seq::filter);
                assert(all.take(i + 1).drop_last() =~= all.take(i as int));
                assert(all.take(i + 1).last() == pattern@);
                assert(wanted(pattern@) == ends);
            }
            i = i + 1;
        }
        assert(all.take(i as int) =~= all);
        found
    }

    fn patterns_aimed_at<'a>(
        &self,
        patterns: &'a Vec<DirectionPattern>,
        destinations: &Vec<String>,
    ) -> (r: Vec<&'a DirectionPattern>)
        ensures
            refs_of(r@) == aimed_patterns(
                *self,
                directions::patterns_of(patterns@),
                text::texts(destinations@),
            ),
    {
        assert(text::texts(destinations@).len() == destinations@.len());
        if destinations.len() > 0 {
            let exact = patterns_ending_exactly(patterns, destinations);
            assert(refs_of(exact@).len() == exact@.len());
            if exact.len() > 0 {
                return exact;
            }
            let nearby = self.patterns_ending_nearby(patterns, destinations);
            assert(refs_of(nearby@).len() == nearby@.len());
            if nearby.len() > 0 {
                return nearby;
            }
        }
        all_patterns(patterns)
    }

    fn keep_best_of_trips(
        &self,
        best: Option<CandidateScore>,
        gtfs: &Gtfs,
        trip_ids: &Vec<String>,
        observed_calls: &Vec<ObservedCall>,
        days: &Vec<i32>,
        zone: &str,
        mode: StopMatchMode,
        Ghost(seen): Ghost<Seq<Option<Candidate>>>,
    ) -> (r: (Option<CandidateScore>, bool))
        requires
            scoring::all_timely(scoring::calls_of(observed_calls@)),
            scoring::candidate_view(best) == scoring::foremost(seen),
        ensures
            scoring::candidate_view(r.0) == scoring::foremost(
                seen + candidates_of_trips(
                    *self,
                    *gtfs,
                    text::texts(trip_ids@),
                    scoring::calls_of(observed_calls@),
                    days@,
                    zone@,
                    mode,
                ),
            ),
            r.1 == one_runs(*self, *gtfs, text::texts(trip_ids@), days@),
    {
        let ghost calls = scoring::calls_of(observed_calls@);
        let ghost ids = text::texts(trip_ids@);
        let mut best = best;
        let mut active = false;
        let mut i: usize = 0;
        assert(seen + candidates_of_trips(*self, *gtfs, ids.take(0), calls, days@, zone@, mode)
            =~= seen);
        while i < trip_ids.len()
            invariant
                i <= trip_ids@.len(),
                calls == scoring::calls_of(observed_calls@),
                ids == text::texts(trip_ids@),
                scoring::all_timely(calls),
                scoring::candidate_view(best) == scoring::foremost(
                    seen + candidates_of_trips(
                        *self,
                        *gtfs,
                        ids.take(i as int),
                        calls,
                        days@,
                        zone@,
                        mode,
                    ),
                ),
                active == one_runs(*self, *gtfs, ids.take(i as int), days@),
            decreases trip_ids@.len() - i,
        {
            let ghost sofar = seen + candidates_of_trips(
                *self,
                *gtfs,
                ids.take(i as int),
                calls,
                days@,
                zone@,
                mode,
            );
            proof {
                assert(ids.take(i + 1).drop_last() =~= ids.take(i as int));
                assert(ids.take(i + 1).last() == trip_ids@[i as int]@);
            }
            let mut running = false;
            if let Some(trip) = gtfs.trips.get(trip_ids[i].as_str()) {
                let (kept, runs) = self.keep_best_on_days(
                    best,
                    gtfs,
                    trip,
                    observed_calls,
                    days,
                    zone,
                    mode,
                    Ghost(sofar),
                );
                best = kept;
                running = runs;
                assert(sofar + self.on_days(*gtfs, *trip, calls, days@, zone@, mode) =~= seen
                    + candidates_of_trips(
                    *self,
                    *gtfs,
                    ids.take(i + 1),
                    calls,
                    days@,
                    zone@,
                    mode,
                ));
            }
            proof {
                let before = ids.take(i as int);
                let after = ids.take(i + 1);
                assert(after[i as int] == trip_ids@[i as int]@);
                if one_runs(*self, *gtfs, after, days@) {
                    let k = choose|k: int|
                        0 <= k < after.len() && gtfs.trips@.contains_key(#[trigger] after[k])
                            && self.runs_on_one(
                            *gtfs,
                            gtfs.trips@[after[k]].service_id@,
                            days@,
                        );
                    if k < i {
                        assert(before[k] == after[k]);
                    }
                }
                if one_runs(*self, *gtfs, before, days@) {
                    let k = choose|k: int|
                        0 <= k < before.len() && gtfs.trips@.contains_key(#[trigger] before[k])
                            && self.runs_on_one(
                            *gtfs,
                            gtfs.trips@[before[k]].service_id@,
                            days@,
                        );
                    assert(before[k] == after[k]);
                }
            }
            active = active || running;
            i = i + 1;
        }
        assert(ids.take(i as int) =~= ids);
        (best, active)
    }

    /// The foremost candidate among the trips of the patterns; whether the calls have an alignment
    /// with one of the patterns; and whether, of such a pattern, a trip runs on one of the days.
    fn best_of_patterns(
        &self,
        gtfs: &Gtfs,
        patterns: &Vec<&DirectionPattern>,
        observed_calls: &Vec<ObservedCall>,
        days: &Vec<i32>,
        zone: &str,
        mode: StopMatchMode,
    ) -> (r: (Option<CandidateScore>, bool, bool))
        requires
            scoring::all_timely(scoring::calls_of(observed_calls@)),
        ensures
            scoring::candidate_view(r.0) == scoring::foremost(
                candidates_of_patterns(
                    *self,
                    *gtfs,
                    refs_of(patterns@),
                    scoring::calls_of(observed_calls@),
                    days@,
                    zone@,
                    mode,
                ),
            ),
            r.1 == one_fits(
                *self,
                refs_of(patterns@),
                scoring::calls_of(observed_calls@),
                mode,
            ),
            r.2 == one_fits_and_runs(
                *self,
                *gtfs,
                refs_of(patterns@),
                scoring::calls_of(observed_calls@),
                days@,
                mode,
            ),
    {
        let ghost calls = scoring::calls_of(observed_calls@);
        let ghost all = refs_of(patterns@);
        let mut best: Option<CandidateScore> = None;
        let mut aligned = false;
        let mut active = false;
        let mut i: usize = 0;
        while i < patterns.len()
            invariant
                i <= patterns@.len(),
                calls == scoring::calls_of(observed_calls@),
                all == refs_of(patterns@),
                scoring::all_timely(calls),
                scoring::candidate_view(best) == scoring::foremost(
                    candidates_of_patterns(
                        *self,
                        *gtfs,
                        all.take(i as int),
                        calls,
                        days@,
                        zone@,
                        mode,
                    ),
                ),
                aligned == one_fits(*self, all.take(i as int), calls, mode),
                active == one_fits_and_runs(
                    *self,
                    *gtfs,
                    all.take(i as int),
                    calls,
                    days@,
                    mode,
                ),
            decreases patterns@.len() - i,
        {
            let pattern = patterns[i];
            let ghost sofar = candidates_of_patterns(
                *self,
                *gtfs,
                all.take(i as int),
                calls,
                days@,
                zone@,
                mode,
            );
            proof {
                assert(all.take(i + 1).drop_last() =~= all.take(i as int));
                assert(all.take(i + 1).last() == pattern@);
            }
            let fits = has_valid_alignment(
                &pattern.stop_ids,
                observed_calls,
                &self.canonical_stop_ids,
                mode,
            );
            let mut running = false;
            if fits {
                let (kept, runs) = self.keep_best_of_trips(
                    best,
                    gtfs,
                    &pattern.trip_ids,
                    observed_calls,
                    days,
                    zone,
                    mode,
                    Ghost(sofar),
                );
                best = kept;
                running = runs;
            }
            proof {
                one_more_pattern(
                    *self,
                    *gtfs,
                    all.take(i as int),
                    pattern@,
                    calls,
                    days@,
                    mode,
                );
                assert(all.take(i + 1) =~= all.take(i as int).push(pattern@));
            }
            aligned = aligned || fits;
            active = active || running;
            i = i + 1;
        }
        assert(all.take(i as int) =~= all);
        (best, aligned, active)
    }
}

proof fn one_more_pattern(
    index: GtfsMatchIndex,
    schedule: Gtfs,
    patterns: Seq<Pattern>,
    pattern: Pattern,
    calls: Seq<Call>,
    days: Seq<i32>,
    mode: StopMatchMode,
)
    ensures
        one_fits(index, patterns.push(pattern), calls, mode) <==> one_fits(
            index,
            patterns,
            calls,
            mode,
        ) || scoring::calls_fit(calls, pattern.stops, index.canonical_stop_ids@, mode),
        one_fits_and_runs(index, schedule, patterns.push(pattern), calls, days, mode)
            <==> one_fits_and_runs(index, schedule, patterns, calls, days, mode) || (
        scoring::calls_fit(calls, pattern.stops, index.canonical_stop_ids@, mode) && one_runs(
            index,
            schedule,
            pattern.trips,
            days,
        )),
{
    let after = patterns.push(pattern);
    let stations = index.canonical_stop_ids@;
    assert(after[patterns.len() as int] == pattern);
    assert forall|k: int| 0 <= k < patterns.len() implies #[trigger] patterns[k] == after[k] by {}
    if one_fits(index, after, calls, mode) {
        let k = choose|k: int|
            0 <= k < after.len() && scoring::calls_fit(
                calls,
                (#[trigger] after[k]).stops,
                stations,
                mode,
            );
        if k < patterns.len() {
            assert(patterns[k] == after[k]);
        }
    }
    if one_fits_and_runs(index, schedule, after, calls, days, mode) {
        let k = choose|k: int|
            0 <= k < after.len() && scoring::calls_fit(
                calls,
                (#[trigger] after[k]).stops,
                stations,
                mode,
            ) && one_runs(index, schedule, after[k].trips, days);
        if k < patterns.len() {
            assert(patterns[k] == after[k]);
        }
    }
}

impl GtfsMatchIndex {
    /// The match of a journey by its direction and its times.
    pub fn match_direction_and_time(
        &self,
        journey: &EstimatedVehicleJourney,
        gtfs: &Gtfs,
        observed_calls: &Vec<ObservedCall>,
    ) -> (r: Result<JourneyMatch, MatchMissReason>)
        requires
            scoring::all_timely(scoring::calls_of(observed_calls@)),
        ensures
            result_view(r) == direction_match(
                *self,
                *gtfs,
                journey@,
                scoring::calls_of(observed_calls@),
            ),
    {
        assert(scoring::calls_of(observed_calls@).len() == observed_calls@.len());
        if observed_calls.len() == 0 {
            return Err(MatchMissReason::NoObservedCalls);
        }
        if !has_matching_time(observed_calls) {
            return Err(MatchMissReason::NoUsableTimes);
        }
        let target_route_id = match target_route(journey) {
            Some(route_id) => route_id,
            None => return Err(MatchMissReason::MissingLineRef),
        };
        let patterns = match self.directions.get(target_route_id.as_str()) {
            Some(patterns) => patterns,
            None => return Err(MatchMissReason::RouteNotFound),
        };
        let target_destination = self.destinations(journey);
        let candidate_patterns = self.patterns_aimed_at(patterns, &target_destination);
        let timezone = self.timezone_for_route(target_route_id.as_str());
        let days = match candidate_service_dates(observed_calls, timezone.as_str()) {
            Some(days) => days,
            None => return Err(MatchMissReason::NoUsableTimes),
        };
        let (exact, exact_aligned, exact_active) = self.best_of_patterns(
            gtfs,
            &candidate_patterns,
            observed_calls,
            &days,
            timezone.as_str(),
            StopMatchMode::Exact,
        );
        if let Some(score) = exact {
            return Ok(to_match(score, MatchKind::DirectionAndTime));
        }
        let (nearby, nearby_aligned, nearby_active) = self.best_of_patterns(
            gtfs,
            &candidate_patterns,
            observed_calls,
            &days,
            timezone.as_str(),
            StopMatchMode::ParentStation,
        );
        if let Some(score) = nearby {
            return Ok(to_match(score, MatchKind::DirectionAndTime));
        }
        if !exact_aligned && !nearby_aligned {
            Err(MatchMissReason::NoStopAlignment)
        } else if !exact_active && !nearby_active {
            Err(MatchMissReason::InactiveServiceDate)
        } else {
            Err(MatchMissReason::NoTimeComparisons)
        }
    }

    /// The match of a journey: by the trip that it names, else by its direction and its times.
    pub open spec fn journey_match(
        self,
        schedule: Gtfs,
        journey: Journey,
    ) -> Result<Match, MatchMissReason> {
        let calls = self.observed(journey);
        match self.exact_match(schedule, journey, calls) {
            Some(found) => Ok(found),
            None => direction_match(self, schedule, journey, calls),
        }
    }

    /// The match of a journey.
    pub fn match_journey(&self, journey: &EstimatedVehicleJourney, gtfs: &Gtfs) -> (r: Result<
        JourneyMatch,
        MatchMissReason,
    >)
        ensures
            result_view(r) == self.journey_match(*gtfs, journey@),
    {
        let observed_calls = self.observed_calls(journey);
        if let Some(found) = self.match_exact_id(journey, gtfs, &observed_calls) {
            return Ok(found);
        }
        self.match_direction_and_time(journey, gtfs, &observed_calls)
    }
}

/// The first stop that each call may be at.
pub open spec fn first_aliases(calls: Seq<Call>) -> Seq<Seq<char>> {
    Seq::new(
        calls.len(),
        |i: int|
            if calls[i].aliases.len() > 0 {
                calls[i].aliases[0]
            } else {
                seq![]
            },
    )
}

/// The stops of a list of patterns.
pub open spec fn stops_of(patterns: Seq<Pattern>) -> Seq<Seq<Seq<char>>> {
    Seq::new(patterns.len(), |i: int| patterns[i].stops)
}

fn first_stop_ids(observed_calls: &Vec<ObservedCall>) -> (r: Vec<String>)
    ensures
        text::texts(r@) == first_aliases(scoring::calls_of(observed_calls@)),
{
    let ghost firsts = first_aliases(scoring::calls_of(observed_calls@));
    let mut out: Vec<String> = Vec::new();
    let mut i: usize = 0;
    while i < observed_calls.len()
        invariant
            i <= observed_calls@.len(),
            firsts == first_aliases(scoring::calls_of(observed_calls@)),
            out@.len() == i,
            forall|k: int| 0 <= k < i ==> #[trigger] out@[k]@ == firsts[k],
        decreases observed_calls@.len() - i,
    {
        let aliases = &observed_calls[i].stop_aliases;
        assert(text::texts(aliases@).len() == aliases@.len());
        let first = if aliases.len() > 0 {
            aliases[0].clone()
        } else {
            String::new()
        };
        assert(firsts[i as int] == first@) by {
            assert(scoring::calls_of(observed_calls@)[i as int] == observed_calls@[i as int]@);
            if aliases@.len() == 0 {
                assert(first@ =~= seq![]);
            }
        }
        out.push(first);
        i = i + 1;
    }
    assert(text::texts(out@) =~= firsts);
    out
}

fn stop_slices<'a>(patterns: &Vec<&'a DirectionPattern>) -> (r: Vec<&'a [String]>)
    ensures
        matching_diagnostics::patterns_of(r@) == stops_of(refs_of(patterns@)),
{
    let mut out: Vec<&[String]> = Vec::new();
    let mut i: usize = 0;
    while i < patterns.len()
        invariant
            i <= patterns@.len(),
            out@.len() == i,
            forall|k: int| 0 <= k < i ==> (#[trigger] out@[k])@ == patterns@[k].stop_ids@,
        decreases patterns@.len() - i,
    {
        out.push(patterns[i].stop_ids.as_slice());
        i = i + 1;
    }
    assert(matching_diagnostics::patterns_of(out@) =~= stops_of(refs_of(patterns@)));
    out
}

impl GtfsMatchIndex {
    /// Whether it can be said why the calls of a journey have no alignment.
    pub open spec fn can_diagnose(self, journey: Journey) -> bool {
        self.observed(journey).len() > 0 && route_of(journey) is Some
            && self.directions@.contains_key(route_of(journey)->0)
    }

    /// Whether `found` tells why the calls of a journey have no alignment.
    pub open spec fn is_diagnosis(
        self,
        found: StopAlignmentDiagnostics,
        journey: Journey,
    ) -> bool {
        let patterns = directions::patterns_at(self.directions@, route_of(journey)->0);
        let aimed = aimed_patterns(self, patterns, destinations_of(self, journey));
        matching_diagnostics::is_diagnosis(
            found,
            first_aliases(self.observed(journey)),
            stops_of(aimed),
            stops_of(patterns),
            self.canonical_stop_ids@,
            aimed.len() < patterns.len(),
        )
    }

    /// The kind of failure of a journey whose calls have no alignment.
    pub open spec fn failure_of(self, journey: Journey) -> StopAlignmentFailureKind {
        let patterns = directions::patterns_at(self.directions@, route_of(journey)->0);
        let aimed = aimed_patterns(self, patterns, destinations_of(self, journey));
        matching_diagnostics::kind_of(
            first_aliases(self.observed(journey)),
            stops_of(aimed),
            stops_of(patterns),
            self.canonical_stop_ids@,
            aimed.len() < patterns.len(),
        )
    }

    /// What is known of a journey whose calls have no alignment; nothing of one without calls at
    /// known stops or of no known route.
    ///
    /// The comparison is more work than a match, and meant for journeys that found none.
    pub fn diagnose_stop_alignment(&self, journey: &EstimatedVehicleJourney) -> (r: Option<
        StopAlignmentDiagnostics,
    >)
        ensures
            r is Some <==> self.can_diagnose(journey@),
            r matches Some(found) ==> self.is_diagnosis(found, journey@) && found.kind
                == self.failure_of(journey@),
    {
        let observed_calls = self.observed_calls(journey);
        assert(scoring::calls_of(observed_calls@).len() == observed_calls@.len());
        if observed_calls.len() == 0 {
            return None;
        }
        let target_route_id = match target_route(journey) {
            Some(route_id) => route_id,
            None => return None,
        };
        let patterns = match self.directions.get(target_route_id.as_str()) {
            Some(patterns) => patterns,
            None => return None,
        };
        let target_destination = self.destinations(journey);
        let candidate_patterns = self.patterns_aimed_at(patterns, &target_destination);
        let all = all_patterns(patterns);
        assert(refs_of(all@).len() == all@.len());
        assert(refs_of(candidate_patterns@).len() == candidate_patterns@.len());
        let destination_filter_applied = candidate_patterns.len() < all.len();
        let observed_stop_ids = first_stop_ids(&observed_calls);
        let candidate_stop_patterns = stop_slices(&candidate_patterns);
        let all_stop_patterns = stop_slices(&all);
        let found = matching_diagnostics::diagnose_stop_alignment(
            observed_stop_ids.as_slice(),
            candidate_stop_patterns.as_slice(),
            all_stop_patterns.as_slice(),
            &self.canonical_stop_ids,
            destination_filter_applied,
        );
        proof {
            matching_diagnostics::diagnosis_has_its_kind(
                found,
                text::texts(observed_stop_ids@),
                stops_of(refs_of(candidate_patterns@)),
                stops_of(refs_of(all@)),
                self.canonical_stop_ids@,
                destination_filter_applied,
            );
        }
        Some(found)
    }
}

} // verus!
