//! What holds of reports, of entries without a match, of responses, of surveys and of downloads.

use crate::enhanced_processor::{self, Find, Recovered, RecoveryReport};
use crate::feed::{Entry, Visit};
use crate::feed_laws;
use crate::gtfs::{Gtfs, Trip};
use crate::gtfs_manager::{self, DownloadAction, DownloadEvent, DownloadStage};
use crate::matching::{self, JourneyMatch, MatchMissReason};
use crate::matching_diagnostics;
use crate::named_laws;
use crate::order;
use crate::processor::{self, MissedExample, SiriReport};
use crate::scoring::{CandidateScore, DpScore, ObservedCall};
use crate::siri_models::{
    self,
    EstimatedCall,
    EstimatedJourneyVersionFrame,
    EstimatedTimetableDelivery,
    EstimatedVehicleJourney,
    Journey,
    SiriResponse,
};
use crate::state::LoadedGtfs;
use crate::stops;
use crate::strict_laws;
use crate::survey;
use crate::table;
use crate::text;
use vstd::prelude::*;

verus! {

/// Whether a journey names a trip and calls at known stops, but tells no time of any.
pub open spec fn names_but_tells_no_time(loaded: LoadedGtfs, journey: Journey) -> bool {
    let calls = loaded.match_index.observed(journey);
    &&& calls.len() > 0
    &&& forall|i: int|
        0 <= i < calls.len() ==> (#[trigger] calls[i]).arrival is None && calls[i].departure is None
    &&& exists|id: Seq<char>| #[trigger]
        loaded.match_index.named_ids(loaded.gtfs, journey).contains(id)
}

/// Whether an entry is that of a trip of which nothing more is known.
pub open spec fn is_bare_entry(entry: Entry, trip_id: Seq<char>) -> bool {
    &&& feed_laws::is_entry_of(entry, trip_id, None)
    &&& entry.visits.len() == 0
}

/// The law of entries without stops: a journey has one exactly if it names a trip and calls at
/// known stops, but tells no time of any; it is that of the first trip that it names.
pub proof fn named_journeys_without_times_have_entries(loaded: LoadedGtfs, journey: Journey)
    requires
        matching::is_index_of(loaded.match_index, loaded.gtfs),
        loaded.gtfs.trips.valid(),
    ensures
        processor::named_entry(loaded, journey) is Some <==> names_but_tells_no_time(
            loaded,
            journey,
        ),
        processor::named_entry(loaded, journey) matches Some(entry) ==> is_bare_entry(
            entry,
            loaded.match_index.named_ids(loaded.gtfs, journey)[0],
        ),
{
    let ids = loaded.match_index.named_ids(loaded.gtfs, journey);
    let calls = loaded.match_index.observed(journey);
    table::table_keys(&loaded.gtfs.trips);
    if ids.len() > 0 {
        assert(ids.contains(ids[0]));
        strict_laws::named_trips_are_those(loaded.match_index, loaded.gtfs, journey, ids[0]);
    }
    if exists|i: int|
        0 <= i < calls.len() && !((#[trigger] calls[i]).arrival is None && calls[i].departure
            is None) {
        let i = choose|i: int|
            0 <= i < calls.len() && !((#[trigger] calls[i]).arrival is None && calls[i].departure
                is None);
        assert(calls[i].arrival is Some || calls[i].departure is Some);
        assert(matching::has_time(calls));
    }
}

/// The law of entries without stops: each missed journey that has one adds it, and no other journey
/// adds any.
pub proof fn entries_without_stops_are_kept(
    loaded: LoadedGtfs,
    journeys: Seq<EstimatedVehicleJourney>,
    journey: EstimatedVehicleJourney,
)
    ensures
        ({
            let sorted = processor::in_time_order(journey@);
            let a = processor::report_of(loaded, journeys).named_only;
            let b = processor::report_of(loaded, journeys.push(journey)).named_only;
            let missed = loaded.match_index.journey_match(loaded.gtfs, sorted) is Err;
            &&& missed && processor::named_entry(loaded, sorted) is Some ==> b == a.push(
                processor::named_entry(loaded, sorted)->0,
            )
            &&& !(missed && processor::named_entry(loaded, sorted) is Some) ==> b == a
        }),
        processor::report_of(loaded, seq![]).named_only.len() == 0,
        processor::report_of(loaded, seq![]).entries.len() == 0,
        processor::report_of(loaded, seq![]).examples.len() == 0,
        processor::report_of(loaded, seq![]).reasons == Map::<Seq<char>, usize>::empty(),
        processor::report_of(loaded, seq![]).exact == 0,
        processor::report_of(loaded, seq![]).by_direction == 0,
        processor::report_of(loaded, seq![]).by_station == 0,
        processor::report_of(loaded, seq![]).missed == 0,
        processor::report_of(loaded, seq![]).scored == 0,
        processor::report_of(loaded, seq![]).total == 0,
{
    assert(journeys.push(journey).drop_last() =~= journeys);
}

/// The law of the strict feed: it is that of the matched journeys, and then of each entry without
/// stops whose trip and identifier no entry before it has.
pub proof fn entries_without_stops_come_last(
    report: processor::Report,
    entry: Entry,
)
    ensures
        processor::feed_entries(
            processor::Report { named_only: seq![], ..report },
        ) == report.entries,
        ({
            let before = processor::feed_entries(report);
            let after = processor::feed_entries(
                processor::Report { named_only: report.named_only.push(entry), ..report },
            );
            let taken = exists|i: int|
                0 <= i < before.len() && ((#[trigger] before[i]).trip == entry.trip || before[i].id
                    == entry.id);
            &&& taken ==> after == before
            &&& !taken ==> after == before.push(entry)
        }),
{
    assert(report.named_only.push(entry).drop_last() =~= report.named_only);
}

/// The law of the feed: without finds it is the strict feed, and each find whose trip and identifier
/// no entry before it has adds its entry.
pub proof fn finds_follow_the_strict_feed(
    report: processor::Report,
    finds: Seq<Find>,
    find: Find,
)
    ensures
        enhanced_processor::all_entries(report, seq![]) == processor::feed_entries(report),
        ({
            let before = enhanced_processor::all_entries(report, finds);
            let after = enhanced_processor::all_entries(report, finds.push(find));
            let taken = exists|i: int|
                0 <= i < before.len() && ((#[trigger] before[i]).trip == find.entry.trip
                    || before[i].id == find.entry.id);
            &&& taken ==> after == before
            &&& !taken ==> after == before.push(find.entry)
        }),
{
    let more = enhanced_processor::entries_in(finds);
    let all = enhanced_processor::entries_in(finds.push(find));
    assert(all =~= more.push(find.entry));
    assert(all.drop_last() =~= more);
    assert(enhanced_processor::entries_in(seq![]) =~= seq![]);
}

/// The law of the views: what a second look comes to is what its report holds.
pub proof fn recoveries_hold_what_is_said(
    report: RecoveryReport,
    rows: Map<Seq<char>, (Seq<char>, Seq<char>, Option<i32>, i64)>,
)
    ensures
        report.with_rows(rows).rows == rows,
        report.with_rows(rows).adaptive == report.adaptive_matches,
        report.with_rows(rows).cached == report.cached_matches,
        report.with_rows(rows).finds.len() == report.recovered@.len(),
        forall|i: int|
            0 <= i < report.recovered@.len() ==> #[trigger] report.with_rows(rows).finds[i]
                == report.recovered@[i]@,
{
}

/// The law of miss names: a journey is counted under the kind of its diagnosis if it has no
/// alignment and can be diagnosed, and under its reason else.
pub proof fn misses_are_counted_by_name(
    loaded: LoadedGtfs,
    journey: Journey,
    reason: MatchMissReason,
)
    ensures
        reason == MatchMissReason::NoStopAlignment && loaded.match_index.can_diagnose(journey)
            ==> processor::miss_name(loaded, journey, reason)
            == matching_diagnostics::failure_name(loaded.match_index.failure_of(journey)),
        reason != MatchMissReason::NoStopAlignment || !loaded.match_index.can_diagnose(journey)
            ==> processor::miss_name(loaded, journey, reason) == matching::reason_name(reason),
{
}

/// The law of examples: one is explained exactly if its journey has no alignment and can be
/// diagnosed, and then by a diagnosis of the journey.
pub proof fn examples_are_explained(loaded: LoadedGtfs, example: MissedExample)
    requires
        processor::is_explained(loaded, example),
    ensures
        example.stop_alignment is Some <==> example.original_reason
            == MatchMissReason::NoStopAlignment && loaded.match_index.can_diagnose(
            example.journey@,
        ),
        example.stop_alignment matches Some(found) ==> loaded.match_index.is_diagnosis(
            found,
            example.journey@,
        ),
{
}

/// The law of responses: their journeys are those of all frames of all deliveries, in order.
pub proof fn journeys_stand_in_order(
    frames: Seq<EstimatedJourneyVersionFrame>,
    frame: EstimatedJourneyVersionFrame,
    deliveries: Seq<EstimatedTimetableDelivery>,
    delivery: EstimatedTimetableDelivery,
    siri: SiriResponse,
)
    ensures
        processor::journeys_of_frames(seq![]).len() == 0,
        processor::journeys_of_frames(frames.push(frame)) == processor::journeys_of_frames(frames)
            + frame.estimated_vehicle_journey@,
        processor::journeys_of_deliveries(seq![]).len() == 0,
        processor::journeys_of_deliveries(deliveries.push(delivery))
            == processor::journeys_of_deliveries(deliveries) + processor::journeys_of_frames(
            delivery.estimated_journey_version_frame@,
        ),
        processor::journeys_of(siri) == processor::journeys_of_deliveries(
            siri.siri.service_delivery.estimated_timetable_delivery@,
        ),
{
    assert(frames.push(frame).drop_last() =~= frames);
    assert(deliveries.push(delivery).drop_last() =~= deliveries);
}

/// The law of means: that of a report is the quotient of the total and the number, cut off at the
/// point.
pub proof fn means_are_cut_off(total: int, number: int)
    requires
        number > 0,
    ensures
        total >= 0 ==> processor::cut_quotient(total, number) * number <= total < (
        processor::cut_quotient(total, number) + 1) * number,
        processor::cut_quotient(-total, number) == -processor::cut_quotient(total, number),
{
    if total >= 0 {
        let q = total / number;
        assert(q * number <= total < (q + 1) * number) by (nonlinear_arith)
            requires
                number > 0,
                q == total / number,
        ;
    }
    if total == 0 {
        assert(0int / number == 0) by (nonlinear_arith)
            requires
                number > 0,
        ;
    }
}

/// Which calls of a journey that is not in the schedule are told: those at known stops.
pub open spec fn is_meant(
    calls: Seq<EstimatedCall>,
    by_suffix: Map<Seq<char>, Vec<String>>,
) -> spec_fn(int) -> bool {
    |j: int|
        calls[j].stop_point_ref is Some && calls[j].stop_point_ref->0.value is Some
            && stops::meant_stops(by_suffix, calls[j].stop_point_ref->0.value->0@).len() > 0
}

/// Whether visits are those of the calls in `from`, each at the first stop that it may mean.
pub open spec fn are_meant_visits(
    visits: Seq<Visit>,
    calls: Seq<EstimatedCall>,
    by_suffix: Map<Seq<char>, Vec<String>>,
    from: Seq<int>,
) -> bool {
    &&& feed_laws::is_listing(from, calls.len() as int, is_meant(calls, by_suffix))
    &&& visits.len() == from.len()
    &&& forall|k: int|
        0 <= k < visits.len() ==> feed_laws::tells(calls[from[k]], #[trigger] visits[k])
            && visits[k].stop == stops::meant_stops(
            by_suffix,
            calls[from[k]].stop_point_ref->0.value->0@,
        )[0]
}

proof fn meant_from(
    calls: Seq<EstimatedCall>,
    by_suffix: Map<Seq<char>, Vec<String>>,
) -> (from: Seq<int>)
    ensures
        are_meant_visits(
            enhanced_processor::meant_visits(calls, by_suffix),
            calls,
            by_suffix,
            from,
        ),
    decreases calls.len(),
{
    if calls.len() == 0 {
        seq![]
    } else {
        let rest = calls.drop_last();
        let n = rest.len() as int;
        let before = meant_from(rest, by_suffix);
        let p = is_meant(rest, by_suffix);
        let q = is_meant(calls, by_suffix);
        assert(calls[n] == calls.last());
        assert forall|j: int| 0 <= j < n implies (#[trigger] q(j) <==> p(j)) by {
            assert(calls[j] == rest[j]);
        }
        let from = feed_laws::listing_grows(before, n, p, q);
        let visits = enhanced_processor::meant_visits(calls, by_suffix);
        if q(n) {
            let stop = stops::meant_stops(by_suffix, calls[n].stop_point_ref->0.value->0@)[0];
            feed_laws::visits_tell_their_calls(calls[n], stop);
        }
        assert forall|k: int| 0 <= k < visits.len() implies feed_laws::tells(
            calls[from[k]],
            #[trigger] visits[k],
        ) && visits[k].stop == stops::meant_stops(
            by_suffix,
            calls[from[k]].stop_point_ref->0.value->0@,
        )[0] by {
            if k < before.len() {
                assert(from[k] == before[k]);
                assert(calls[before[k]] == rest[before[k]]);
                assert(visits[k] == enhanced_processor::meant_visits(rest, by_suffix)[k]);
            }
        }
        from
    }
}

/// The law of journeys that are not in the schedule: one has an entry exactly if its line is known
/// and it calls at a known stop. The entry is that of an added trip of its line, under its name
/// with a dash for what an identifier does not keep, and tells its calls at known stops, each at
/// the first stop that it may mean.
pub proof fn extra_journeys_are_added(
    schedule: Gtfs,
    journey: Journey,
    by_suffix: Map<Seq<char>, Vec<String>>,
)
    ensures
        enhanced_processor::extra_entry(schedule, journey, by_suffix) is Some
            <==> matching::route_of(journey) is Some && schedule.routes@.contains_key(
            matching::route_of(journey)->0,
        ) && exists|j: int|
            0 <= j < journey.calls.len() && #[trigger] is_meant(journey.calls, by_suffix)(j),
        enhanced_processor::extra_entry(schedule, journey, by_suffix) matches Some(entry) ==> {
            &&& entry.added
            &&& entry.route == matching::route_of(journey)
            &&& entry.start is None
            &&& entry.trip == entry.id
            &&& journey.name matches Some(name) ==> entry.id == "IDFM:EXTRA:"@ + text::sanitized(
                name,
            )
            &&& journey.name is None ==> entry.id == "IDFM:EXTRA:unknown"@
            &&& exists|from: Seq<int>| #[trigger]
                are_meant_visits(entry.visits, journey.calls, by_suffix, from)
        },
{
    let calls = journey.calls;
    let from = meant_from(calls, by_suffix);
    let visits = enhanced_processor::meant_visits(calls, by_suffix);
    let p = is_meant(calls, by_suffix);
    if visits.len() > 0 {
        assert(p(from[0]));
    }
    if exists|j: int| 0 <= j < calls.len() && #[trigger] is_meant(calls, by_suffix)(j) {
        let j = choose|j: int| 0 <= j < calls.len() && #[trigger] is_meant(calls, by_suffix)(j);
        assert(p(j));
        assert(from.contains(j));
    }
    reveal_strlit("IDFM:EXTRA:");
    reveal_strlit("unknown");
    reveal_strlit("IDFM:EXTRA:unknown");
    let plain = text::sanitized("unknown"@);
    assert(plain =~= "unknown"@);
    assert("IDFM:EXTRA:"@ + "unknown"@ =~= "IDFM:EXTRA:unknown"@);
    if let Some(entry) = enhanced_processor::extra_entry(schedule, journey, by_suffix) {
        assert(entry.route == matching::route_of(journey));
        assert(are_meant_visits(entry.visits, calls, by_suffix, from));
        if journey.name is None {
            assert(entry.id == "IDFM:EXTRA:"@ + plain);
        }
    }
}

/// The law of short names: the trips with one are listed in the order of the table, each that has
/// one and no other.
pub proof fn short_names_are_listed(ids: Seq<Seq<char>>, trips: Map<Seq<char>, Trip>, id: Seq<char>)
    ensures
        survey::named(ids, trips).contains(id) <==> ids.contains(id) && trips[id].trip_short_name
            is Some,
        exists|places: Seq<int>| #[trigger]
            named_laws::are_places(places, survey::named(ids, trips), ids),
{
    let f = |id: Seq<char>| trips[id].trip_short_name is Some;
    strict_laws::filtered(ids, f, id);
    let places = named_laws::filter_places(ids, f);
    assert(named_laws::are_places(places, survey::named(ids, trips), ids));
}

/// The law of known names: a name counts once for each time that it stands in the list, if a trip
/// has it as its short name.
pub proof fn names_are_counted_one_by_one(
    names: Seq<String>,
    name: String,
    trips: Map<Seq<char>, Trip>,
)
    ensures
        survey::known_names(seq![], trips) == 0,
        ({
            let is_one = exists|id: Seq<char>| #[trigger]
                trips.contains_key(id) && trips[id].trip_short_name is Some
                    && trips[id].trip_short_name->0@ == name@;
            &&& is_one ==> survey::known_names(names.push(name), trips) == survey::known_names(
                names,
                trips,
            ) + 1
            &&& !is_one ==> survey::known_names(names.push(name), trips) == survey::known_names(
                names,
                trips,
            )
        }),
{
    assert(names.push(name).drop_last() =~= names);
}

/// The law of renewal: a schedule from the disk is renewed at once, and a new one a day later.
pub proof fn schedules_are_renewed_daily(loaded_existing_cache: bool)
    ensures
        loaded_existing_cache ==> gtfs_manager::delay_before_first(loaded_existing_cache) == 0,
        !loaded_existing_cache ==> gtfs_manager::delay_before_first(loaded_existing_cache) == 24
            * 60 * 60,
        gtfs_manager::REFRESH_INTERVAL_SECONDS == 24 * 60 * 60,
{
}

/// The law of downloads: a piece adds its bytes, and the next one is received.
pub proof fn pieces_add_up(received: u64, length: u64, expected: Option<u64>)
    requires
        received + length <= u64::MAX,
    ensures
        gtfs_manager::next_step(
            DownloadStage::Receiving { received },
            expected,
            DownloadEvent::Piece { length },
        ) == (
            DownloadStage::Receiving { received: (received + length) as u64 },
            DownloadAction::Receive,
        ),
{
}

/// The law of downloads: at the end of the body an empty one is thrown away; one that does not have
/// the announced length is thrown away with both lengths; any other is read.
pub proof fn bodies_are_held_against_their_length(received: u64, expected: Option<u64>)
    ensures
        ({
            let (stage, action) = gtfs_manager::next_step(
                DownloadStage::Receiving { received },
                expected,
                DownloadEvent::End,
            );
            &&& received == 0 ==> stage == DownloadStage::Failed && action
                == DownloadAction::DiscardEmpty
            &&& received > 0 && (expected is None || expected == Some(received)) ==> stage
                == DownloadStage::Reading && action == DownloadAction::Read
            &&& received > 0 && expected is Some && expected->0 != received ==> stage
                == DownloadStage::Failed && action == DownloadAction::DiscardIncomplete {
                expected: expected->0,
                received,
            }
        }),
{
}

/// The law of downloads: one that was read takes the place of the file at hand, and is used when it
/// has taken it; anything else that happens ends it.
pub proof fn downloads_go_their_way(
    stage: DownloadStage,
    expected: Option<u64>,
    event: DownloadEvent,
)
    ensures
        ({
            let next = gtfs_manager::next_step(stage, expected, event);
            &&& stage == DownloadStage::Reading && event == DownloadEvent::Success ==> next == (
                DownloadStage::Replacing,
                DownloadAction::Replace,
            )
            &&& stage == DownloadStage::Replacing && event == DownloadEvent::Success ==> next == (
                DownloadStage::Done,
                DownloadAction::Publish,
            )
            &&& event == DownloadEvent::Failure || stage == DownloadStage::Done || stage
                == DownloadStage::Failed ==> next == (
                DownloadStage::Failed,
                DownloadAction::GiveUp,
            )
            &&& stage is Receiving && event == DownloadEvent::Success ==> next == (
                DownloadStage::Failed,
                DownloadAction::GiveUp,
            )
            &&& !(stage is Receiving) && (event is Piece || event == DownloadEvent::End) ==> next
                == (DownloadStage::Failed, DownloadAction::GiveUp)
        }),
{
}

/// The law of downloads, for a whole one: pieces, the end of the body, and two successes come to
/// its use, and the bytes are those of the pieces.
pub proof fn whole_downloads_are_used(expected: Option<u64>, pieces: Seq<DownloadEvent>)
    requires
        forall|i: int| 0 <= i < pieces.len() ==> (#[trigger] pieces[i]) is Piece,
        0 < gtfs_manager::bytes_in(pieces) <= u64::MAX,
        expected matches Some(length) ==> length == gtfs_manager::bytes_in(pieces),
    ensures
        gtfs_manager::stage_after(
            expected,
            pieces.push(DownloadEvent::End).push(DownloadEvent::Success).push(
                DownloadEvent::Success,
            ),
        ) == DownloadStage::Done,
{
    let a = pieces.push(DownloadEvent::End);
    let b = a.push(DownloadEvent::Success);
    let c = b.push(DownloadEvent::Success);
    pieces_are_received(expected, pieces);
    assert(a.drop_last() =~= pieces);
    assert(b.drop_last() =~= a);
    assert(c.drop_last() =~= b);
    assert(gtfs_manager::stage_after(expected, a) == DownloadStage::Reading);
    assert(gtfs_manager::stage_after(expected, b) == DownloadStage::Replacing);
}

proof fn pieces_are_received(expected: Option<u64>, pieces: Seq<DownloadEvent>)
    requires
        forall|i: int| 0 <= i < pieces.len() ==> (#[trigger] pieces[i]) is Piece,
        gtfs_manager::bytes_in(pieces) <= u64::MAX,
    ensures
        0 <= gtfs_manager::bytes_in(pieces),
        gtfs_manager::stage_after(expected, pieces) == (DownloadStage::Receiving {
            received: gtfs_manager::bytes_in(pieces) as u64,
        }),
    decreases pieces.len(),
{
    if pieces.len() > 0 {
        let rest = pieces.drop_last();
        assert(pieces[pieces.len() - 1] == pieces.last());
        assert(pieces.last() is Piece);
        assert forall|i: int| 0 <= i < rest.len() implies (#[trigger] rest[i]) is Piece by {
            assert(rest[i] == pieces[i]);
        }
        pieces_are_received(expected, rest);
    }
}

/// The law of the views: what is said of a match, of a candidate, of a score, of an observed call
/// and of a find is what they hold.
pub proof fn matches_hold_what_is_said(
    found: JourneyMatch,
    candidate: CandidateScore,
    score: DpScore,
    call: ObservedCall,
    recovered: Recovered,
)
    ensures
        found@.trip_id == found.trip_id@,
        found@.day == found.service_date,
        found@.kind == found.kind,
        found@.mean is Some <==> found.mean_abs_difference_seconds is Some,
        found@.mean matches Some(mean) ==> mean == found.mean_abs_difference_seconds->0,
        found@.at == found.stop_indices@,
        found@.by_station == found.used_parent_station_match,
        candidate@.trip_id == candidate.trip_id@,
        candidate@.day == candidate.service_date,
        candidate@.mean == candidate.mean_abs_difference_seconds,
        candidate@.most == candidate.max_abs_difference_seconds,
        candidate@.count == candidate.comparisons,
        candidate@.at == candidate.stop_indices@,
        candidate@.by_station == candidate.used_parent_station_match,
        score@.total == score.total_difference,
        score@.most == score.max_difference,
        score@.count == score.comparisons,
        call@.aliases.len() == call.stop_aliases@.len(),
        forall|i: int|
            0 <= i < call@.aliases.len() ==> #[trigger] call@.aliases[i] == call.stop_aliases@[i]@,
        call.aimed_arrival is Some ==> call@.arrival == call.aimed_arrival,
        call.aimed_arrival is None ==> call@.arrival == call.expected_arrival,
        call.aimed_departure is Some ==> call@.departure == call.aimed_departure,
        call.aimed_departure is None ==> call@.departure == call.expected_departure,
        recovered@.entry == recovered.entity@,
        recovered@.platforms.len() == recovered.platforms@.len(),
{
}

/// The law of the views: what is said of a report and of an example is what they hold.
pub proof fn reports_hold_what_is_said(report: SiriReport, example: MissedExample, i: int)
    ensures
        report@.exact == report.exact_matches,
        report@.by_direction == report.sequence_matches,
        report@.by_station == report.parent_station_matches,
        report@.missed == report.unmatched,
        report@.scored == report.scored_matches,
        report@.total == report.total_mean_difference_seconds,
        report@.reasons == report.missed_by_reason@,
        report@.entries.len() == report.entities@.len(),
        report@.named_only.len() == report.named_only@.len(),
        report@.examples.len() == report.missed_examples@.len(),
        0 <= i < report@.entries.len() ==> report@.entries[i] == report.entities@[i]@,
        0 <= i < report@.named_only.len() ==> report@.named_only[i] == report.named_only@[i]@,
        0 <= i < report@.examples.len() ==> report@.examples[i] == report.missed_examples@[i]@,
        example@.reason == example.reason@,
        example@.original == example.original_reason,
        example@.journey == example.journey@,
{
}

/// The law of the order of calls: to put them in order leaves all else of a journey as it is.
pub proof fn order_leaves_the_rest(journey: Journey)
    ensures
        processor::in_time_order(journey).name == journey.name,
        processor::in_time_order(journey).line == journey.line,
        processor::in_time_order(journey).operator == journey.operator,
        processor::in_time_order(journey).destination == journey.destination,
        processor::in_time_order(journey).calls.len() == journey.calls.len(),
{
    order::ranked_is_a_stable_sort(journey.calls);
}

/// The law of copies: a copy of a journey that is the same says the same.
pub proof fn same_journeys_say_the_same(a: EstimatedVehicleJourney, b: EstimatedVehicleJourney)
    requires
        siri_models::are_same(a, b),
    ensures
        a@ == b@,
        a.direction_ref == b.direction_ref,
        a.direction_name is Some <==> b.direction_name is Some,
        a.direction_name matches Some(names) ==> names@ == b.direction_name->0@,
        a.journey_note is Some <==> b.journey_note is Some,
        a.journey_note matches Some(notes) ==> notes@ == b.journey_note->0@,
        a.estimated_calls is Some <==> b.estimated_calls is Some,
{
}

} // verus!
