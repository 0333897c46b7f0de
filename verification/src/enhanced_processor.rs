//! A second look at the journeys that the strict match misses: the tolerant match, and the trip
//! that the vehicle was last seen on.

use crate::adaptive_matching::{self, match_cached_assignment, NO_STOP};
use crate::feed::{self, scheduled_entity, Entry, FeedBuilder, FeedEntity, FeedMessage, StopTimeUpdate, TripDescriptor, TripUpdate, Visit};
use crate::gtfs::{self, Gtfs, Trip};
use crate::lists;
use crate::matching::{self, target_route, JourneyMatch, Match};
use crate::order;
use crate::permutations;
use crate::processor::{self, journeys_in, platform_name, process_journeys, sort_estimated_calls_by_time, start_date, update_for, Report, SiriReport};
use crate::scoring;
use crate::siri_models::{self, reference_value, EstimatedCall, EstimatedVehicleJourney, Journey, SiriResponse};
use crate::state::{self, find_assignment, insert_assignment, insert_platforms, retain_assignments, seen_within, LoadedGtfs, PlatformInfo, VehicleAssignment};
use crate::stops;
use crate::text::{self, sanitize_entity_id, text_eq_ignore_case};
use dashmap::DashMap;
use vstd::prelude::*;
use vstd::string::StringExecFns;

verus! {

/// What vehicles were last seen on.
pub type Rows = Map<Seq<char>, (Seq<char>, Seq<char>, Option<i32>, i64)>;

/// The name of the vehicle journey, by which a vehicle is known again.
pub fn vehicle_key(journey: &EstimatedVehicleJourney) -> (r: Option<&str>)
    ensures
        text::opt_text(r) == journey@.name,
{
    reference_value(&journey.dated_vehicle_journey_ref)
}

/// Puts the calls of a journey in the order of their times.
pub fn sort_for_strict_matcher(journey: &mut EstimatedVehicleJourney)
    ensures
        final(journey)@ == processor::in_time_order(old(journey)@),
        siri_models::differ_in_calls_only(*final(journey), *old(journey)),
        final(journey).direction_name == old(journey).direction_name,
        final(journey).journey_note == old(journey).journey_note,
{
    sort_estimated_calls_by_time(journey);
}

/// What vehicles were last seen on after one was seen on a trip: nothing new of a journey without
/// a name or of a trip that is not in the schedule.
pub open spec fn rows_with(
    rows: Rows,
    schedule: Gtfs,
    journey: Journey,
    found: Match,
    now: i64,
) -> Rows {
    match (journey.name, processor::trip_of(schedule, found.trip_id)) {
        (Some(vehicle), Some(trip)) => rows.insert(
            vehicle,
            (found.trip_id, trip.route_id@, found.day, now),
        ),
        _ => rows,
    }
}

/// Keeps in mind which trip the vehicle of a journey is on.
pub fn remember_assignment(
    vehicle_assignments: &mut DashMap<String, VehicleAssignment>,
    journey: &EstimatedVehicleJourney,
    matched: &JourneyMatch,
    gtfs: &Gtfs,
    now: i64,
)
    ensures
        state::assignment_rows(*final(vehicle_assignments)) == rows_with(
            state::assignment_rows(*old(vehicle_assignments)),
            *gtfs,
            journey@,
            matched@,
            now,
        ),
{
    let vehicle = match vehicle_key(journey) {
        Some(vehicle) => vehicle,
        None => return ,
    };
    let trip = match gtfs.trips.get(matched.trip_id.as_str()) {
        Some(trip) => trip,
        None => return ,
    };
    let assignment = VehicleAssignment {
        trip_id: matched.trip_id.clone(),
        route_id: trip.route_id.clone(),
        service_date: matched.service_date,
        last_seen_epoch: now,
    };
    insert_assignment(vehicle_assignments, vehicle.to_owned(), assignment);
}

/// The stop of a trip at which a match puts a call, if it puts it at one.
pub open spec fn seat_of(trip: Trip, at: Seq<usize>, k: int) -> Option<Seq<char>> {
    if 0 <= k < at.len() && at[k] != NO_STOP && at[k] < trip.stop_times@.len() {
        Some(trip.stop_times@[at[k] as int].stop_id@)
    } else {
        None
    }
}

/// What the calls say of the stops at which a match puts them.
pub open spec fn seated_visits(
    calls: Seq<EstimatedCall>,
    trip: Trip,
    at: Seq<usize>,
) -> Seq<Visit>
    decreases calls.len(),
{
    if calls.len() == 0 {
        seq![]
    } else {
        let front = seated_visits(calls.drop_last(), trip, at);
        match seat_of(trip, at, calls.len() - 1) {
            Some(stop) => front.push(processor::visit_of(calls.last(), stop)),
            None => front,
        }
    }
}

/// The platforms that the calls name at these stops.
pub open spec fn seated_platforms(
    calls: Seq<EstimatedCall>,
    trip: Trip,
    at: Seq<usize>,
) -> Seq<(Seq<char>, Seq<char>)>
    decreases calls.len(),
{
    if calls.len() == 0 {
        seq![]
    } else {
        let front = seated_platforms(calls.drop_last(), trip, at);
        match (
            seat_of(trip, at, calls.len() - 1),
            processor::platform_of(calls.last()),
        ) {
            (Some(stop), Some(name)) => if text::equal_but_for_case(name, "unknown"@) {
                front
            } else {
                front.push((stop, name))
            },
            _ => front,
        }
    }
}

/// An entry, and the platforms that are named with it.
#[verifier::ext_equal]
pub ghost struct Find {
    pub entry: Entry,
    pub platforms: Seq<(Seq<char>, Seq<char>)>,
}

/// The entry of a journey by a match; none where no call is put at a stop.
pub open spec fn find_of(schedule: Gtfs, journey: Journey, found: Match) -> Option<Find> {
    match processor::trip_of(schedule, found.trip_id) {
        Some(trip) => {
            let visits = seated_visits(journey.calls, trip, found.at);
            if visits.len() == 0 {
                None
            } else {
                Some(
                    Find {
                        entry: feed::scheduled_entry(
                            found.trip_id,
                            processor::start_of(found.day),
                            visits,
                        ),
                        platforms: seated_platforms(journey.calls, trip, found.at),
                    },
                )
            }
        },
        None => None,
    }
}

/// An entry, and the platforms that are named with it.
pub struct Recovered {
    pub entity: FeedEntity,
    pub platforms: Vec<PlatformInfo>,
}

impl View for Recovered {
    type V = Find;

    open spec fn view(&self) -> Find {
        Find { entry: self.entity@, platforms: state::platforms_of(self.platforms@) }
    }
}

/// The find that there may be.
pub open spec fn find_view(recovered: Option<Recovered>) -> Option<Find> {
    match recovered {
        Some(found) => Some(found@),
        None => None,
    }
}

/// The entry of a journey by a match.
pub fn build_matched_entity(
    journey: &EstimatedVehicleJourney,
    matched: &JourneyMatch,
    gtfs: &Gtfs,
) -> (r: Option<Recovered>)
    ensures
        find_view(r) == find_of(*gtfs, journey@, matched@),
{
    let trip = match gtfs.trips.get(matched.trip_id.as_str()) {
        Some(trip) => trip,
        None => return None,
    };
    let calls = match &journey.estimated_calls {
        Some(calls) => calls,
        None => return None,
    };
    let list = &calls.estimated_call;
    let at = &matched.stop_indices;
    let mut updates: Vec<StopTimeUpdate> = Vec::new();
    let mut platforms: Vec<PlatformInfo> = Vec::new();
    assert(feed::visits_of(updates@) =~= seq![]);
    assert(state::platforms_of(platforms@) =~= seq![]);
    let mut i: usize = 0;
    while i < list.len()
        invariant
            i <= list@.len(),
            feed::visits_of(updates@) == seated_visits(list@.take(i as int), *trip, at@),
            state::platforms_of(platforms@) == seated_platforms(
                list@.take(i as int),
                *trip,
                at@,
            ),
        decreases list@.len() - i,
    {
        let call = &list[i];
        assert(list@.take(i + 1).drop_last() =~= list@.take(i as int));
        assert(list@.take(i + 1).last() == *call);
        if i < at.len() && at[i] != NO_STOP && at[i] < trip.stop_times.len() {
            let stop_id = trip.stop_times[at[i]].stop_id.as_str();
            let ghost visits = feed::visits_of(updates@);
            updates.push(update_for(call, stop_id));
            assert(feed::visits_of(updates@) =~= visits.push(
                processor::visit_of(*call, stop_id@),
            ));
            if let Some(name) = platform_name(call) {
                if !text_eq_ignore_case(name, "unknown") {
                    let ghost named = state::platforms_of(platforms@);
                    platforms.push(
                        PlatformInfo {
                            stop_id: stop_id.to_owned(),
                            platform_name: name.to_owned(),
                        },
                    );
                    assert(state::platforms_of(platforms@) =~= named.push((stop_id@, name@)));
                }
            }
        }
        i = i + 1;
    }
    assert(list@.take(i as int) =~= list@);
    assert(feed::visits_of(updates@).len() == updates@.len());
    if updates.len() == 0 {
        return None;
    }
    let start = start_date(matched.service_date);
    Some(
        Recovered {
            entity: scheduled_entity(matched.trip_id.as_str(), start, updates),
            platforms,
        },
    )
}

/// The stop that the reference of a call means first, if it means one.
pub open spec fn first_meant(
    by_suffix: Map<Seq<char>, Vec<String>>,
    call: EstimatedCall,
) -> Option<Seq<char>> {
    match siri_models::reference_text(call.stop_point_ref) {
        Some(reference) => if stops::meant_stops(by_suffix, reference).len() > 0 {
            Some(stops::meant_stops(by_suffix, reference)[0])
        } else {
            None
        },
        None => None,
    }
}

/// What the calls say of the stops that they mean first.
pub open spec fn meant_visits(
    calls: Seq<EstimatedCall>,
    by_suffix: Map<Seq<char>, Vec<String>>,
) -> Seq<Visit>
    decreases calls.len(),
{
    if calls.len() == 0 {
        seq![]
    } else {
        let front = meant_visits(calls.drop_last(), by_suffix);
        match first_meant(by_suffix, calls.last()) {
            Some(stop) => front.push(processor::visit_of(calls.last(), stop)),
            None => front,
        }
    }
}

/// The identifier of a journey that is not in the schedule.
pub open spec fn extra_id(name: Option<Seq<char>>) -> Seq<char> {
    "IDFM:EXTRA:"@ + text::sanitized(
        match name {
            Some(vehicle) => vehicle,
            None => "unknown"@,
        },
    )
}

/// The entry of a journey that is not in the schedule; none for a journey of no known route or
/// without a call at a known stop.
pub open spec fn extra_entry(
    schedule: Gtfs,
    journey: Journey,
    by_suffix: Map<Seq<char>, Vec<String>>,
) -> Option<Entry> {
    match matching::route_of(journey) {
        Some(route) => {
            let visits = meant_visits(journey.calls, by_suffix);
            if schedule.routes@.contains_key(route) && visits.len() > 0 {
                Some(
                    Entry {
                        id: extra_id(journey.name),
                        trip: extra_id(journey.name),
                        start: None,
                        route: Some(route),
                        added: true,
                        visits,
                    },
                )
            } else {
                None
            }
        },
        None => None,
    }
}

/// The entry of a journey that is not in the schedule.
pub fn build_extra_journey_entity(
    journey: &EstimatedVehicleJourney,
    gtfs: &Gtfs,
    stop_alias_index: &adaptive_matching::StopAliasIndex,
) -> (r: Option<FeedEntity>)
    ensures
        processor::entity_view(r) == extra_entry(
            *gtfs,
            journey@,
            stop_alias_index.by_suffix@,
        ),
{
    let vehicle = match vehicle_key(journey) {
        Some(vehicle) => vehicle,
        None => "unknown",
    };
    let route_id = match target_route(journey) {
        Some(route_id) => route_id,
        None => return None,
    };
    if !gtfs.routes.contains_key(route_id.as_str()) {
        return None;
    }
    let mut synthetic_id = "IDFM:EXTRA:".to_owned();
    synthetic_id.append(sanitize_entity_id(vehicle).as_str());
    let mut updates: Vec<StopTimeUpdate> = Vec::new();
    assert(feed::visits_of(updates@) =~= seq![]);
    if let Some(calls) = &journey.estimated_calls {
        let list = &calls.estimated_call;
        let ghost by_suffix = stop_alias_index.by_suffix@;
        let mut i: usize = 0;
        while i < list.len()
            invariant
                i <= list@.len(),
                by_suffix == stop_alias_index.by_suffix@,
                feed::visits_of(updates@) == meant_visits(list@.take(i as int), by_suffix),
            decreases list@.len() - i,
        {
            let call = &list[i];
            assert(list@.take(i + 1).drop_last() =~= list@.take(i as int));
            assert(list@.take(i + 1).last() == *call);
            let stop = match reference_value(&call.stop_point_ref) {
                Some(reference) => stop_alias_index.first(reference),
                None => None,
            };
            if let Some(stop_id) = stop {
                let ghost visits = feed::visits_of(updates@);
                updates.push(update_for(call, stop_id.as_str()));
                assert(feed::visits_of(updates@) =~= visits.push(
                    processor::visit_of(*call, stop_id@),
                ));
            }
            i = i + 1;
        }
        assert(list@.take(i as int) =~= list@);
    }
    assert(feed::visits_of(updates@).len() == updates@.len());
    if updates.len() == 0 {
        return None;
    }
    Some(
        FeedEntity {
            id: synthetic_id.clone(),
            trip_update: TripUpdate {
                trip: TripDescriptor {
                    trip_id: synthetic_id,
                    start_date: None,
                    route_id: Some(route_id),
                    added: true,
                },
                stop_time_update: updates,
            },
        },
    )
}

/// What a second look at journeys comes to.
#[verifier::ext_equal]
pub ghost struct Recovery {
    /// What vehicles were last seen on.
    pub rows: Rows,
    pub finds: Seq<Find>,
    pub adaptive: int,
    pub cached: int,
}

/// The match of a journey with the trip that its vehicle was last seen on, if that is not too long
/// ago.
pub open spec fn cached_match(
    rows: Rows,
    loaded: LoadedGtfs,
    journey: Journey,
    now: i64,
) -> Option<Match> {
    match journey.name {
        Some(vehicle) => if rows.contains_key(vehicle) && now - rows[vehicle].3
            <= state::VEHICLE_ASSIGNMENT_TTL_SECONDS {
            adaptive_matching::remembered_match(
                loaded.gtfs,
                journey,
                loaded.stop_alias_index.by_suffix@,
                rows[vehicle].0,
            )
        } else {
            None
        },
        None => None,
    }
}

/// A recovery with one match more, if it makes an entry.
pub open spec fn with_find(
    recovery: Recovery,
    loaded: LoadedGtfs,
    journey: Journey,
    found: Match,
    from_cache: bool,
    now: i64,
) -> Recovery {
    match find_of(loaded.gtfs, journey, found) {
        Some(find) => Recovery {
            rows: rows_with(recovery.rows, loaded.gtfs, journey, found, now),
            finds: recovery.finds.push(find),
            adaptive: recovery.adaptive + (if from_cache {
                0int
            } else {
                1
            }),
            cached: recovery.cached + (if from_cache {
                1int
            } else {
                0
            }),
        },
        None => recovery,
    }
}

/// A recovery after a second look at one journey more: one with a strict match is only kept in
/// mind; another is matched tolerantly, else with the trip that its vehicle was last seen on.
pub open spec fn after_journey(
    recovery: Recovery,
    loaded: LoadedGtfs,
    journey: Journey,
    now: i64,
) -> Recovery {
    match loaded.match_index.journey_match(loaded.gtfs, processor::in_time_order(journey)) {
        Ok(found) => Recovery {
            rows: rows_with(recovery.rows, loaded.gtfs, journey, found, now),
            ..recovery
        },
        Err(_) => match adaptive_matching::tolerant_match(
            loaded.gtfs,
            journey,
            loaded.stop_alias_index.by_suffix@,
        ) {
            Some(found) => with_find(recovery, loaded, journey, found, false, now),
            None => match cached_match(recovery.rows, loaded, journey, now) {
                Some(found) => with_find(recovery, loaded, journey, found, true, now),
                None => recovery,
            },
        },
    }
}

/// The recovery of journeys.
pub open spec fn recovery_of(
    rows: Rows,
    loaded: LoadedGtfs,
    journeys: Seq<EstimatedVehicleJourney>,
    now: i64,
) -> Recovery
    decreases journeys.len(),
{
    if journeys.len() == 0 {
        Recovery { rows, finds: seq![], adaptive: 0, cached: 0 }
    } else {
        after_journey(
            recovery_of(rows, loaded, journeys.drop_last(), now),
            loaded,
            journeys.last()@,
            now,
        )
    }
}

/// The finds of a list.
pub open spec fn finds_of(list: Seq<Recovered>) -> Seq<Find> {
    Seq::new(list.len(), |i: int| list[i]@)
}

/// What a second look at journeys comes to.
pub struct RecoveryReport {
    pub recovered: Vec<Recovered>,
    pub adaptive_matches: usize,
    pub cached_matches: usize,
}

fn find_cached(
    vehicle_assignments: &DashMap<String, VehicleAssignment>,
    loaded: &LoadedGtfs,
    journey: &EstimatedVehicleJourney,
    now: i64,
) -> (r: Option<JourneyMatch>)
    ensures
        matching::match_view(r) == cached_match(
            state::assignment_rows(*vehicle_assignments),
            *loaded,
            journey@,
            now,
        ),
{
    let vehicle = match vehicle_key(journey) {
        Some(vehicle) => vehicle,
        None => return None,
    };
    match find_assignment(vehicle_assignments, vehicle) {
        Some(assignment) => if seen_within(
            assignment.last_seen_epoch,
            now,
            state::VEHICLE_ASSIGNMENT_TTL_SECONDS,
        ) {
            match_cached_assignment(
                journey,
                &loaded.gtfs,
                &loaded.stop_alias_index,
                assignment.trip_id.as_str(),
            )
        } else {
            None
        },
        None => None,
    }
}

impl RecoveryReport {
    /// What the report and the assignments come to.
    pub open spec fn with_rows(self, rows: Rows) -> Recovery {
        Recovery {
            rows,
            finds: finds_of(self.recovered@),
            adaptive: self.adaptive_matches as int,
            cached: self.cached_matches as int,
        }
    }

    fn note(
        &mut self,
        loaded: &LoadedGtfs,
        journey: &EstimatedVehicleJourney,
        matched: &JourneyMatch,
        from_cache: bool,
        now: i64,
        vehicle_assignments: &mut DashMap<String, VehicleAssignment>,
    )
        requires
            old(self).adaptive_matches < usize::MAX,
            old(self).cached_matches < usize::MAX,
        ensures
            final(self).with_rows(state::assignment_rows(*final(vehicle_assignments)))
                == with_find(
                old(self).with_rows(state::assignment_rows(*old(vehicle_assignments))),
                *loaded,
                journey@,
                matched@,
                from_cache,
                now,
            ),
            final(self).adaptive_matches <= old(self).adaptive_matches + 1,
            final(self).cached_matches <= old(self).cached_matches + 1,
    {
        if let Some(found) = build_matched_entity(journey, matched, &loaded.gtfs) {
            remember_assignment(vehicle_assignments, journey, matched, &loaded.gtfs, now);
            let ghost before = finds_of(self.recovered@);
            self.recovered.push(found);
            assert(finds_of(self.recovered@) =~= before.push(found@));
            if from_cache {
                self.cached_matches = self.cached_matches + 1;
            } else {
                self.adaptive_matches = self.adaptive_matches + 1;
            }
        }
    }
}

/// Takes a second look at journeys.
pub fn recover_journeys(
    loaded: &LoadedGtfs,
    journeys: &Vec<EstimatedVehicleJourney>,
    now: i64,
    vehicle_assignments: &mut DashMap<String, VehicleAssignment>,
) -> (r: RecoveryReport)
    ensures
        r.with_rows(state::assignment_rows(*final(vehicle_assignments))) == recovery_of(
            state::assignment_rows(*old(vehicle_assignments)),
            *loaded,
            journeys@,
            now,
        ),
{
    let ghost rows = state::assignment_rows(*vehicle_assignments);
    let mut report = RecoveryReport {
        recovered: Vec::new(),
        adaptive_matches: 0,
        cached_matches: 0,
    };
    let mut i: usize = 0;
    assert(finds_of(report.recovered@) =~= seq![]);
    while i < journeys.len()
        invariant
            i <= journeys@.len(),
            report.adaptive_matches <= i,
            report.cached_matches <= i,
            report.with_rows(state::assignment_rows(*vehicle_assignments)) == recovery_of(
                rows,
                *loaded,
                journeys@.take(i as int),
                now,
            ),
        decreases journeys@.len() - i,
    {
        let journey = &journeys[i];
        assert(journeys@.take(i + 1).drop_last() =~= journeys@.take(i as int));
        assert(journeys@.take(i + 1).last() == *journey);
        let mut strict_view = journey.copy();
        sort_for_strict_matcher(&mut strict_view);
        match loaded.match_index.match_journey(&strict_view, &loaded.gtfs) {
            Ok(matched) => {
                remember_assignment(vehicle_assignments, journey, &matched, &loaded.gtfs, now);
            },
            Err(_) => {
                match adaptive_matching::match_journey(
                    journey,
                    &loaded.gtfs,
                    &loaded.stop_alias_index,
                ) {
                    Some(matched) => {
                        report.note(loaded, journey, &matched, false, now, vehicle_assignments);
                    },
                    None => {
                        if let Some(matched) = find_cached(
                            vehicle_assignments,
                            loaded,
                            journey,
                            now,
                        ) {
                            report.note(loaded, journey, &matched, true, now, vehicle_assignments);
                        }
                    },
                }
            },
        }
        assert(report.with_rows(state::assignment_rows(*vehicle_assignments)) =~= recovery_of(
            rows,
            *loaded,
            journeys@.take(i + 1),
            now,
        ));
        i = i + 1;
    }
    assert(journeys@.take(i as int) =~= journeys@);
    report
}

/// The entries of finds.
pub open spec fn entries_in(finds: Seq<Find>) -> Seq<Entry> {
    Seq::new(finds.len(), |i: int| finds[i].entry)
}

/// The platforms by trip after finds were merged into entries: those of a find that was new, if it
/// names any.
pub open spec fn rows_merged(
    rows: Map<Seq<char>, Seq<(Seq<char>, Seq<char>)>>,
    entries: Seq<Entry>,
    finds: Seq<Find>,
) -> Map<Seq<char>, Seq<(Seq<char>, Seq<char>)>>
    decreases finds.len(),
{
    if finds.len() == 0 {
        rows
    } else {
        let front = rows_merged(rows, entries, finds.drop_last());
        let last = finds.last();
        if feed::is_new(feed::merged(entries, entries_in(finds.drop_last())), last.entry)
            && last.platforms.len() > 0 {
            front.insert(last.entry.trip, last.platforms)
        } else {
            front
        }
    }
}

fn merge_recovered(
    builder: &mut FeedBuilder,
    recovered: Vec<Recovered>,
    trip_platforms: &mut DashMap<String, Vec<PlatformInfo>>,
)
    requires
        old(builder).valid(),
    ensures
        final(builder).valid(),
        final(builder).entries() == feed::merged(
            old(builder).entries(),
            entries_in(finds_of(recovered@)),
        ),
        state::platform_rows(*final(trip_platforms)) == rows_merged(
            state::platform_rows(*old(trip_platforms)),
            old(builder).entries(),
            finds_of(recovered@),
        ),
{
    let ghost all = finds_of(recovered@);
    let ghost entries = builder.entries();
    let ghost rows = state::platform_rows(*trip_platforms);
    let mut left = recovered;
    let mut waiting: Vec<Recovered> = Vec::new();
    assert(waiting@ + left@.reverse() =~= recovered@.reverse());
    while left.len() > 0
        invariant
            waiting@ + left@.reverse() == recovered@.reverse(),
        decreases left@.len(),
    {
        let ghost given = left@;
        if let Some(found) = left.pop() {
            waiting.push(found);
            assert(given.reverse() =~= seq![found] + left@.reverse());
            assert(waiting@ + left@.reverse() =~= recovered@.reverse());
        }
    }
    let ghost mut done: int = 0;
    assert(waiting@ =~= recovered@.reverse());
    assert(finds_of(waiting@) =~= all.skip(0).reverse());
    assert(entries_in(all.take(0)) =~= seq![]);
    while waiting.len() > 0
        invariant
            builder.valid(),
            0 <= done <= all.len(),
            finds_of(waiting@) == all.skip(done).reverse(),
            builder.entries() == feed::merged(entries, entries_in(all.take(done))),
            state::platform_rows(*trip_platforms) == rows_merged(rows, entries, all.take(done)),
        decreases waiting@.len(),
    {
        let ghost given = waiting@;
        if let Some(found) = waiting.pop() {
            proof {
                assert(finds_of(given).last() == found@);
                assert(found@ == all.skip(done)[0]);
                assert(finds_of(waiting@) =~= finds_of(given).drop_last());
                assert(all.skip(done).reverse().drop_last() =~= all.skip(done + 1).reverse());
                assert(all.take(done + 1).drop_last() =~= all.take(done));
                assert(all.take(done + 1).last() == found@);
                assert(entries_in(all.take(done + 1)).drop_last() =~= entries_in(all.take(done)));
                assert(entries_in(all.take(done + 1)).last() == found@.entry);
            }
            let Recovered { entity, platforms } = found;
            assert(state::platforms_of(platforms@).len() == platforms@.len());
            if builder.lacks(&entity) {
                if platforms.len() > 0 {
                    insert_platforms(
                        trip_platforms,
                        entity.trip_update.trip.trip_id.clone(),
                        platforms,
                    );
                }
                builder.push(entity);
            }
            proof {
                done = done + 1;
            }
        }
    }
    assert(finds_of(waiting@).len() == 0);
    assert(all.take(done) =~= all);
}

/// The entries of the feed: those of the strict feed, then those of the second look for other
/// trips.
pub open spec fn all_entries(report: Report, finds: Seq<Find>) -> Seq<Entry> {
    feed::merged(processor::feed_entries(report), entries_in(finds))
}

/// What a response comes to.
pub struct SiriOutcome {
    pub feed: FeedMessage,
    pub report: SiriReport,
    pub adaptive_matches: usize,
    pub cached_matches: usize,
}

/// Reads a response, with a second look at the journeys without a strict match: the feed that it
/// makes, the platforms that its journeys name, and what its vehicles are seen on. Assignments
/// that were not seen for long are forgotten. Without a schedule nothing is read.
pub fn process_siri(
    loaded: Option<&LoadedGtfs>,
    siri: SiriResponse,
    now: i64,
    trip_platforms: &mut DashMap<String, Vec<PlatformInfo>>,
    vehicle_assignments: &mut DashMap<String, VehicleAssignment>,
) -> (r: SiriOutcome)
    ensures
        match loaded {
            Some(schedule) => {
                let journeys = processor::journeys_of(siri);
                let report = processor::report_of(*schedule, journeys);
                let recovery = recovery_of(
                    state::assignment_rows(*old(vehicle_assignments)),
                    *schedule,
                    journeys,
                    now,
                );
                &&& r.feed.gtfs_realtime_version@ == "2.0"@
                &&& r.feed.timestamp == Some(now as u64)
                &&& feed::entries_of(r.feed.entity@) == all_entries(report, recovery.finds)
                &&& r.report@ == (Report { entries: seq![], named_only: seq![], ..report })
                &&& r.adaptive_matches == recovery.adaptive
                &&& r.cached_matches == recovery.cached
                &&& state::assignment_rows(*final(vehicle_assignments)) == state::kept_rows(
                    recovery.rows,
                    now,
                )
                &&& state::platform_rows(*final(trip_platforms)) == rows_merged(
                    processor::rows_after(
                        state::platform_rows(*old(trip_platforms)),
                        *schedule,
                        journeys,
                    ),
                    processor::feed_entries(report),
                    recovery.finds,
                )
                &&& forall|i: int|
                    0 <= i < r.report.missed_examples@.len() ==> processor::is_explained(
                        *schedule,
                        #[trigger] r.report.missed_examples@[i],
                    )
            },
            None => {
                &&& r.feed.gtfs_realtime_version@ == ""@
                &&& r.feed.timestamp is None
                &&& r.feed.entity@.len() == 0
                &&& r.report@ == processor::empty_report()
                &&& r.adaptive_matches == 0
                &&& r.cached_matches == 0
                &&& state::assignment_rows(*final(vehicle_assignments)) == state::assignment_rows(
                    *old(vehicle_assignments),
                )
                &&& state::platform_rows(*final(trip_platforms)) == state::platform_rows(
                    *old(trip_platforms),
                )
            },
        },
{
    match loaded {
        Some(schedule) => {
            let journeys = journeys_in(siri);
            let recovery = recover_journeys(schedule, &journeys, now, vehicle_assignments);
            let mut report = process_journeys(schedule, journeys, trip_platforms);
            let (entities, named_only) = report.take_entities();
            let mut builder = FeedBuilder::new();
            builder.append(entities);
            assert(Seq::<Entry>::empty() + feed::entries_of(entities@) =~= feed::entries_of(
                entities@,
            ));
            builder.merge(named_only);
            merge_recovered(&mut builder, recovery.recovered, trip_platforms);
            retain_assignments(vehicle_assignments, now);
            SiriOutcome {
                feed: FeedMessage::new(now as u64, builder.finish()),
                report,
                adaptive_matches: recovery.adaptive_matches,
                cached_matches: recovery.cached_matches,
            }
        },
        None => SiriOutcome {
            feed: FeedMessage::blank(),
            report: SiriReport::new(),
            adaptive_matches: 0,
            cached_matches: 0,
        },
    }
}

/// The law of the second look: it, too, says something only of stops that the trip has.
pub proof fn finds_use_stops_of_the_trip(
    calls: Seq<EstimatedCall>,
    trip: Trip,
    at: Seq<usize>,
)
    ensures
        forall|i: int|
            0 <= i < seated_visits(calls, trip, at).len() ==> gtfs::trip_stops(
                trip,
            ).contains((#[trigger] seated_visits(calls, trip, at)[i]).stop),
    decreases calls.len(),
{
    if calls.len() > 0 {
        let front = seated_visits(calls.drop_last(), trip, at);
        let all = seated_visits(calls, trip, at);
        finds_use_stops_of_the_trip(calls.drop_last(), trip, at);
        assert forall|i: int| 0 <= i < all.len() implies gtfs::trip_stops(trip).contains(
            (#[trigger] all[i]).stop,
        ) by {
            if i < front.len() {
                assert(all[i] == front[i]);
            } else {
                let stops = gtfs::trip_stops(trip);
                assert(stops[at[calls.len() - 1] as int] == all[i].stop);
            }
        }
    }
}

/// The law of the feed: the strict feed stands in front, as it is, and every later entry is that of
/// a find and differs from every other in its trip and in its identifier.
pub proof fn strict_feed_comes_first(report: Report, finds: Seq<Find>)
    ensures
        all_entries(report, finds).len() >= processor::feed_entries(report).len(),
        all_entries(report, finds).take(processor::feed_entries(report).len() as int)
            == processor::feed_entries(report),
        forall|i: int, j: int|
            0 <= i < j < all_entries(report, finds).len() && processor::feed_entries(report).len()
                <= j ==> (#[trigger] all_entries(report, finds)[i]).trip != (
            #[trigger] all_entries(report, finds)[j]).trip && all_entries(report, finds)[i].id
                != all_entries(report, finds)[j].id,
        forall|i: int|
            processor::feed_entries(report).len() <= i < all_entries(report, finds).len()
                ==> entries_in(finds).contains(#[trigger] all_entries(report, finds)[i]),
{
    feed::merging_keeps_and_differs(processor::feed_entries(report), entries_in(finds));
}

/// A call without a time is neither observed with one nor seen.
proof fn untimed_calls_are_not_seen(
    calls: Seq<EstimatedCall>,
    index: Map<Seq<char>, Vec<String>>,
    aliases: Map<Seq<char>, Vec<String>>,
    ids: Set<Seq<char>>,
)
    requires
        lists::is_index_by(index, ids, stops::by_suffix()),
        lists::is_index_by(aliases, ids, stops::by_suffix()),
        !matching::has_time(matching::observed_of(calls, index)),
    ensures
        adaptive_matching::sightings_of(calls, aliases).len() == 0,
    decreases calls.len(),
{
    if calls.len() > 0 {
        let front = matching::observed_of(calls.drop_last(), index);
        let all = matching::observed_of(calls, index);
        assert forall|i: int| 0 <= i < front.len() implies (#[trigger] front[i]).arrival is None
            && front[i].departure is None by {
            assert(all[i] == front[i]);
        }
        untimed_calls_are_not_seen(calls.drop_last(), index, aliases, ids);
        let last = calls.last();
        if let Some(reference) = siri_models::reference_text(last.stop_point_ref) {
            if let Some(suffix) = text::reference_suffix(reference) {
                let known = lists::list_at(index, suffix);
                let also = lists::list_at(aliases, suffix);
                if also.len() > 0 {
                    assert(also.contains(also[0]));
                    assert(known.contains(also[0]));
                    assert(matching::observed_call(last, index) is Some);
                    assert(all.last() == matching::observed_call(last, index)->0);
                    assert(all[all.len() - 1].arrival is None);
                }
            }
        }
    }
}

proof fn untimed_in_any_order(
    s: Seq<EstimatedCall>,
    t: Seq<EstimatedCall>,
    index: Map<Seq<char>, Vec<String>>,
)
    requires
        s.to_multiset() == t.to_multiset(),
        matching::has_time(matching::observed_of(s, index)),
    ensures
        matching::has_time(matching::observed_of(t, index)),
{
    let f = |call: EstimatedCall| matching::observed_call(call, index);
    observed_is_given(s, index, f);
    observed_is_given(t, index, f);
    permutations::given_is_the_same(s, t, f);
    let a = matching::observed_of(s, index);
    let b = matching::observed_of(t, index);
    permutations::same_values(a, b);
    let i = choose|i: int|
        0 <= i < a.len() && ((#[trigger] a[i]).arrival is Some || a[i].departure is Some);
    assert(a.contains(a[i]));
    let j = choose|j: int| 0 <= j < b.len() && b[j] == a[i];
    assert(b[j].arrival is Some || b[j].departure is Some);
}

proof fn observed_is_given(
    calls: Seq<EstimatedCall>,
    index: Map<Seq<char>, Vec<String>>,
    f: spec_fn(EstimatedCall) -> Option<scoring::Call>,
)
    requires
        forall|call: EstimatedCall| #[trigger] f(call) == matching::observed_call(call, index),
    ensures
        matching::observed_of(calls, index) == permutations::given(calls, f),
    decreases calls.len(),
{
    if calls.len() > 0 {
        observed_is_given(calls.drop_last(), index, f);
    }
}

/// The law of entries without stops: a journey that has one is not found by the second look, so
/// that its entry takes the place of none that it would make.
pub proof fn entries_without_stops_displace_no_find(
    loaded: LoadedGtfs,
    journey: Journey,
    rows: Rows,
    now: i64,
)
    requires
        matching::is_index_of(loaded.match_index, loaded.gtfs),
        lists::is_index_by(
            loaded.stop_alias_index.by_suffix@,
            loaded.gtfs.stops@.dom(),
            stops::by_suffix(),
        ),
        processor::named_entry(loaded, processor::in_time_order(journey)) is Some,
    ensures
        adaptive_matching::tolerant_match(
            loaded.gtfs,
            journey,
            loaded.stop_alias_index.by_suffix@,
        ) is None,
        cached_match(rows, loaded, journey, now) is None,
{
    let index = loaded.match_index.stop_ids_by_suffix@;
    let aliases = loaded.stop_alias_index.by_suffix@;
    order::ranked_is_a_stable_sort(journey.calls);
    if matching::has_time(matching::observed_of(journey.calls, index)) {
        untimed_in_any_order(journey.calls, order::ranked(journey.calls), index);
    }
    untimed_calls_are_not_seen(journey.calls, index, aliases, loaded.gtfs.stops@.dom());
}

/// Whether a find is that of a journey without a strict match.
pub open spec fn is_find_of(
    loaded: LoadedGtfs,
    journey: EstimatedVehicleJourney,
    find: Find,
) -> bool {
    &&& loaded.match_index.journey_match(
        loaded.gtfs,
        processor::in_time_order(journey@),
    ) is Err
    &&& exists|found: Match| #[trigger] find_of(loaded.gtfs, journey@, found) == Some(find)
}

/// The law of the second look: each of its finds is that of a journey without a strict match.
pub proof fn finds_have_missed_journeys(
    rows: Rows,
    loaded: LoadedGtfs,
    journeys: Seq<EstimatedVehicleJourney>,
    now: i64,
)
    ensures
        forall|k: int|
            0 <= k < recovery_of(rows, loaded, journeys, now).finds.len() ==> exists|j: int|
                0 <= j < journeys.len() && is_find_of(
                    loaded,
                    #[trigger] journeys[j],
                    #[trigger] recovery_of(rows, loaded, journeys, now).finds[k],
                ),
    decreases journeys.len(),
{
    if journeys.len() > 0 {
        let rest = journeys.drop_last();
        let front = recovery_of(rows, loaded, rest, now).finds;
        let all = recovery_of(rows, loaded, journeys, now).finds;
        finds_have_missed_journeys(rows, loaded, rest, now);
        assert forall|k: int| 0 <= k < all.len() implies exists|j: int|
            0 <= j < journeys.len() && is_find_of(
                loaded,
                #[trigger] journeys[j],
                #[trigger] all[k],
            ) by {
            if k < front.len() {
                assert(all[k] == front[k]);
                let j = choose|j: int|
                    0 <= j < rest.len() && is_find_of(loaded, #[trigger] rest[j], front[k]);
                assert(journeys[j] == rest[j]);
            } else {
                assert(is_find_of(loaded, journeys[journeys.len() - 1], all[k]));
            }
        }
    }
}

/// The law of the second look: each of its finds is counted once, and there are no more of them
/// than journeys without a strict match.
pub proof fn finds_are_missed_journeys(
    rows: Rows,
    loaded: LoadedGtfs,
    journeys: Seq<EstimatedVehicleJourney>,
    now: i64,
)
    ensures
        ({
            let recovery = recovery_of(rows, loaded, journeys, now);
            &&& recovery.finds.len() == recovery.adaptive + recovery.cached
            &&& 0 <= recovery.adaptive
            &&& 0 <= recovery.cached
            &&& recovery.finds.len() <= processor::report_of(loaded, journeys).missed
        }),
    decreases journeys.len(),
{
    if journeys.len() > 0 {
        finds_are_missed_journeys(rows, loaded, journeys.drop_last(), now);
    }
}

} // verus!
