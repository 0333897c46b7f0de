//! What holds of the second look at journeys without a strict match, and of the trips that vehicles
//! were last seen on.

use crate::adaptive_matching;
use crate::enhanced_processor::{self, Find, Recovery, Rows};
use crate::feed::{self, Entry};
use crate::gtfs::Gtfs;
use crate::matching::{Match, MatchMissReason};
use crate::processor;
use crate::siri_models::{EstimatedVehicleJourney, Journey};
use crate::state::{self, LoadedGtfs, PlatformInfo, VehicleAssignment};
use vstd::prelude::*;

verus! {

/// What vehicles were last seen on after that of a journey was seen on a trip: nothing new of a
/// journey without a name, or of a trip that the schedule does not have.
pub open spec fn is_remembered(
    before: Rows,
    after: Rows,
    schedule: Gtfs,
    journey: Journey,
    found: Match,
    now: i64,
) -> bool {
    if journey.name is Some && schedule.trips@.contains_key(found.trip_id) {
        &&& after.dom() == before.dom().insert(journey.name->0)
        &&& after[journey.name->0].0 == found.trip_id
        &&& after[journey.name->0].1 == schedule.trips@[found.trip_id].route_id@
        &&& after[journey.name->0].2 == found.day
        &&& after[journey.name->0].3 == now
        &&& forall|other: Seq<char>|
            other != journey.name->0 && before.contains_key(other) ==> #[trigger] after[other]
                == before[other]
    } else {
        after == before
    }
}

/// Whether a recovery goes on with the find that a match makes, if it makes one.
pub open spec fn goes_on_with(
    before: Recovery,
    after: Recovery,
    schedule: Gtfs,
    journey: Journey,
    found: Match,
    from_cache: bool,
    now: i64,
) -> bool {
    match enhanced_processor::find_of(schedule, journey, found) {
        Some(find) => {
            &&& after.finds == before.finds.push(find)
            &&& is_remembered(before.rows, after.rows, schedule, journey, found, now)
            &&& from_cache ==> after.cached == before.cached + 1 && after.adaptive
                == before.adaptive
            &&& !from_cache ==> after.cached == before.cached && after.adaptive == before.adaptive
                + 1
        },
        None => after == before,
    }
}

/// The strict match of a journey, its calls in time order.
pub open spec fn strict_match(loaded: LoadedGtfs, journey: Journey) -> Result<
    Match,
    MatchMissReason,
> {
    loaded.match_index.journey_match(loaded.gtfs, processor::in_time_order(journey))
}

/// The tolerant match of a journey.
pub open spec fn loose_match(loaded: LoadedGtfs, journey: Journey) -> Option<Match> {
    adaptive_matching::tolerant_match(loaded.gtfs, journey, loaded.stop_alias_index.by_suffix@)
}

/// The match of a journey with a trip that its vehicle was seen on.
pub open spec fn match_with_trip(
    loaded: LoadedGtfs,
    journey: Journey,
    trip_id: Seq<char>,
) -> Option<Match> {
    adaptive_matching::remembered_match(
        loaded.gtfs,
        journey,
        loaded.stop_alias_index.by_suffix@,
        trip_id,
    )
}

/// The law of the second look, for a journey with a strict match: nothing is found, and its vehicle
/// is kept in mind with the trip.
pub proof fn strict_journeys_are_kept_in_mind(
    rows: Rows,
    loaded: LoadedGtfs,
    journeys: Seq<EstimatedVehicleJourney>,
    journey: EstimatedVehicleJourney,
    now: i64,
)
    requires
        strict_match(loaded, journey@) is Ok,
    ensures
        ({
            let before = enhanced_processor::recovery_of(rows, loaded, journeys, now);
            let after = enhanced_processor::recovery_of(rows, loaded, journeys.push(journey), now);
            &&& after.finds == before.finds
            &&& after.adaptive == before.adaptive
            &&& after.cached == before.cached
            &&& is_remembered(
                before.rows,
                after.rows,
                loaded.gtfs,
                journey@,
                strict_match(loaded, journey@)->Ok_0,
                now,
            )
        }),
        enhanced_processor::recovery_of(rows, loaded, seq![], now) == (Recovery {
            rows,
            finds: seq![],
            adaptive: 0,
            cached: 0,
        }),
{
    assert(journeys.push(journey).drop_last() =~= journeys);
}

/// The law of the second look, for a journey without a strict match that has a tolerant one: it
/// comes to the tolerant match.
pub proof fn tolerant_journeys_are_found(
    rows: Rows,
    loaded: LoadedGtfs,
    journeys: Seq<EstimatedVehicleJourney>,
    journey: EstimatedVehicleJourney,
    now: i64,
)
    requires
        strict_match(loaded, journey@) is Err,
        loose_match(loaded, journey@) is Some,
    ensures
        goes_on_with(
            enhanced_processor::recovery_of(rows, loaded, journeys, now),
            enhanced_processor::recovery_of(rows, loaded, journeys.push(journey), now),
            loaded.gtfs,
            journey@,
            loose_match(loaded, journey@)->0,
            false,
            now,
        ),
{
    assert(journeys.push(journey).drop_last() =~= journeys);
}

/// The law of vehicles, for a journey with a name and with neither match: if its vehicle was seen
/// within the last quarter of an hour, on whatever service day, the second look comes to the match
/// of the journey with the trip that it was seen on, if there is one.
pub proof fn vehicles_are_known_again(
    rows: Rows,
    loaded: LoadedGtfs,
    journeys: Seq<EstimatedVehicleJourney>,
    journey: EstimatedVehicleJourney,
    now: i64,
)
    requires
        strict_match(loaded, journey@) is Err,
        loose_match(loaded, journey@) is None,
        journey@.name is Some,
        enhanced_processor::recovery_of(rows, loaded, journeys, now).rows.contains_key(
            journey@.name->0,
        ),
    ensures
        ({
            let before = enhanced_processor::recovery_of(rows, loaded, journeys, now);
            let after = enhanced_processor::recovery_of(rows, loaded, journeys.push(journey), now);
            let (trip_id, _, _, seen) = before.rows[journey@.name->0];
            match match_with_trip(loaded, journey@, trip_id) {
                Some(found) => {
                    &&& now - seen <= 900 ==> goes_on_with(
                        before,
                        after,
                        loaded.gtfs,
                        journey@,
                        found,
                        true,
                        now,
                    )
                    &&& now - seen > 900 ==> after == before
                },
                None => after == before,
            }
        }),
{
    assert(journeys.push(journey).drop_last() =~= journeys);
}

/// The law of the second look, for a journey with neither match whose vehicle is not known: nothing
/// comes of it.
pub proof fn unknown_vehicles_are_left(
    rows: Rows,
    loaded: LoadedGtfs,
    journeys: Seq<EstimatedVehicleJourney>,
    journey: EstimatedVehicleJourney,
    now: i64,
)
    requires
        strict_match(loaded, journey@) is Err,
        loose_match(loaded, journey@) is None,
        journey@.name matches Some(vehicle) ==> !enhanced_processor::recovery_of(
            rows,
            loaded,
            journeys,
            now,
        ).rows.contains_key(vehicle),
    ensures
        enhanced_processor::recovery_of(rows, loaded, journeys.push(journey), now)
            == enhanced_processor::recovery_of(rows, loaded, journeys, now),
{
    assert(journeys.push(journey).drop_last() =~= journeys);
}

/// The law of forgetting: an assignment is kept, as it is, exactly if it was seen within the last
/// six hours.
pub proof fn assignments_are_kept_for_hours(rows: Rows, now: i64, vehicle: Seq<char>)
    ensures
        state::kept_rows(rows, now).contains_key(vehicle) <==> rows.contains_key(vehicle) && now
            - rows[vehicle].3 <= 6 * 3600,
        state::kept_rows(rows, now).contains_key(vehicle) ==> state::kept_rows(rows, now)[vehicle]
            == rows[vehicle],
{
}

/// The law of two readings: where a vehicle was matched strictly with a trip in one reading, a
/// reading within a quarter of an hour, of whatever schedule, holds a journey of that vehicle with
/// neither match against that trip.
pub proof fn matched_vehicles_are_known_in_the_next_reading(
    rows: Rows,
    loaded: LoadedGtfs,
    journeys: Seq<EstimatedVehicleJourney>,
    journey: EstimatedVehicleJourney,
    now: i64,
    next: LoadedGtfs,
    again: EstimatedVehicleJourney,
    later: i64,
)
    requires
        strict_match(loaded, journey@) is Ok,
        journey@.name is Some,
        loaded.gtfs.trips@.contains_key(strict_match(loaded, journey@)->Ok_0.trip_id),
        now <= later <= now + 900,
        again@.name == journey@.name,
        strict_match(next, again@) is Err,
        loose_match(next, again@) is None,
    ensures
        ({
            let found = strict_match(loaded, journey@)->Ok_0;
            let first = enhanced_processor::recovery_of(rows, loaded, journeys.push(journey), now);
            let kept = state::kept_rows(first.rows, now);
            let second = enhanced_processor::recovery_of(kept, next, seq![again], later);
            match match_with_trip(next, again@, found.trip_id) {
                Some(same) => goes_on_with(
                    Recovery { rows: kept, finds: seq![], adaptive: 0, cached: 0 },
                    second,
                    next.gtfs,
                    again@,
                    same,
                    true,
                    later,
                ),
                None => second.finds.len() == 0,
            }
        }),
{
    strict_journeys_are_kept_in_mind(rows, loaded, journeys, journey, now);
    let first = enhanced_processor::recovery_of(rows, loaded, journeys.push(journey), now);
    let kept = state::kept_rows(first.rows, now);
    let none = Seq::<EstimatedVehicleJourney>::empty();
    assert(first.rows.dom().contains(journey@.name->0));
    assert(seq![again] =~= none.push(again));
    vehicles_are_known_again(kept, next, none, again, later);
}

/// Whether a find is that of a journey without a strict match, by its tolerant match or by the
/// match with a trip.
pub open spec fn is_recovered(
    loaded: LoadedGtfs,
    journey: EstimatedVehicleJourney,
    find: Find,
) -> bool {
    &&& strict_match(loaded, journey@) is Err
    &&& exists|found: Match|
        {
            &&& #[trigger] enhanced_processor::find_of(loaded.gtfs, journey@, found) == Some(find)
            &&& loose_match(loaded, journey@) == Some(found) || (loose_match(loaded, journey@)
                is None && exists|trip_id: Seq<char>|
                #[trigger] match_with_trip(loaded, journey@, trip_id) == Some(found))
        }
}

/// The law of recovered entries: each find of the second look is that of a journey without a strict
/// match, by its tolerant match or, where it has none, by its match with a trip.
pub proof fn recovered_entries_tell_their_journeys(
    rows: Rows,
    loaded: LoadedGtfs,
    journeys: Seq<EstimatedVehicleJourney>,
    now: i64,
    k: int,
)
    requires
        0 <= k < enhanced_processor::recovery_of(rows, loaded, journeys, now).finds.len(),
    ensures
        exists|j: int|
            0 <= j < journeys.len() && is_recovered(
                loaded,
                #[trigger] journeys[j],
                enhanced_processor::recovery_of(rows, loaded, journeys, now).finds[k],
            ),
    decreases journeys.len(),
{
    if journeys.len() > 0 {
        let rest = journeys.drop_last();
        let journey = journeys.last();
        assert(rest.push(journey) =~= journeys);
        let before = enhanced_processor::recovery_of(rows, loaded, rest, now);
        let all = enhanced_processor::recovery_of(rows, loaded, journeys, now).finds;
        if k < before.finds.len() {
            recovered_entries_tell_their_journeys(rows, loaded, rest, now, k);
            assert(all[k] == before.finds[k]);
            let j = choose|j: int|
                0 <= j < rest.len() && is_recovered(loaded, #[trigger] rest[j], all[k]);
            assert(journeys[j] == rest[j]);
        } else {
            assert(strict_match(loaded, journey@) is Err);
            if loose_match(loaded, journey@) is None {
                let vehicle = journey@.name->0;
                assert(match_with_trip(loaded, journey@, before.rows[vehicle].0) is Some);
            }
            assert(is_recovered(loaded, journeys[journeys.len() - 1], all[k]));
        }
    }
}

/// The law of merging: what a second look finds stands in the feed under its trip or its
/// identifier, and a find whose trip and identifier no earlier entry has stands there as it is.
pub proof fn new_finds_are_published(
    entries: Seq<Entry>,
    more: Seq<Entry>,
    entry: Entry,
)
    ensures
        (forall|i: int|
            0 <= i < feed::merged(entries, more).len() ==> (#[trigger] feed::merged(
                entries,
                more,
            )[i]).trip != entry.trip && feed::merged(entries, more)[i].id != entry.id)
            ==> feed::merged(entries, more.push(entry)) == feed::merged(
            entries,
            more,
        ).push(entry),
        (exists|i: int|
            0 <= i < feed::merged(entries, more).len() && ((#[trigger] feed::merged(
                entries,
                more,
            )[i]).trip == entry.trip || feed::merged(entries, more)[i].id == entry.id))
            ==> feed::merged(entries, more.push(entry)) == feed::merged(
            entries,
            more,
        ),
        feed::merged(entries, seq![]) == entries,
{
    assert(more.push(entry).drop_last() =~= more);
}

/// The law of the platforms of finds: those of a find are kept under its trip if it is published
/// and names any; else nothing changes.
pub proof fn platforms_of_finds_are_kept(
    rows: Map<Seq<char>, Seq<(Seq<char>, Seq<char>)>>,
    entries: Seq<Entry>,
    finds: Seq<Find>,
    find: Find,
)
    ensures
        ({
            let before = enhanced_processor::rows_merged(rows, entries, finds);
            let after = enhanced_processor::rows_merged(rows, entries, finds.push(find));
            let published = feed::merged(entries, enhanced_processor::entries_in(finds));
            let is_known = exists|i: int|
                0 <= i < published.len() && ((#[trigger] published[i]).trip == find.entry.trip
                    || published[i].id == find.entry.id);
            &&& !is_known && find.platforms.len() > 0 ==> after == before.insert(
                find.entry.trip,
                find.platforms,
            )
            &&& is_known || find.platforms.len() == 0 ==> after == before
        }),
        enhanced_processor::rows_merged(rows, entries, seq![]) == rows,
{
    assert(finds.push(find).drop_last() =~= finds);
}

/// The law of the views: an assignment and a platform hold what is said of them.
pub proof fn assignments_hold_what_is_said(
    assignment: VehicleAssignment,
    platforms: Seq<PlatformInfo>,
)
    ensures
        assignment@.0 == assignment.trip_id@,
        assignment@.1 == assignment.route_id@,
        assignment@.2 == assignment.service_date,
        assignment@.3 == assignment.last_seen_epoch,
        state::platforms_of(platforms).len() == platforms.len(),
        forall|i: int|
            0 <= i < platforms.len() ==> (#[trigger] state::platforms_of(platforms)[i]).0
                == platforms[i].stop_id@ && state::platforms_of(platforms)[i].1
                == platforms[i].platform_name@,
{
}

} // verus!
