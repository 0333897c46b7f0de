use idfm_realtime::gtfs::{Calendar, Gtfs, Stop, StopTime, Trip};
use idfm_realtime::matching::{GtfsMatchIndex, MatchKind, MatchMissReason};
use idfm_realtime::matching_diagnostics::StopAlignmentFailureKind;
use idfm_realtime::scoring::{compare_means, CandidateScore, DpScore, MeanOrder};
use idfm_realtime::siri_models::{
    EstimatedCall, EstimatedCalls, EstimatedVehicleJourney, ValueWrapper,
};

const MONDAY: i32 = 739_810;

fn wrap(value: &str) -> Option<ValueWrapper> {
    Some(ValueWrapper {
        value: Some(value.to_string()),
    })
}

fn call(stop: &str, aimed_departure: Option<&str>) -> EstimatedCall {
    EstimatedCall {
        stop_point_ref: wrap(stop),
        aimed_arrival_time: None,
        aimed_departure_time: aimed_departure.map(str::to_string),
        expected_arrival_time: None,
        expected_departure_time: None,
        arrival_status: None,
        departure_status: None,
        arrival_platform_name: None,
        departure_platform_name: None,
    }
}

fn journey(
    name: Option<&str>,
    line: Option<&str>,
    destination: Option<&str>,
    calls: Vec<EstimatedCall>,
) -> EstimatedVehicleJourney {
    EstimatedVehicleJourney {
        dated_vehicle_journey_ref: name.and_then(wrap),
        line_ref: line.and_then(wrap),
        operator_ref: None,
        direction_ref: None,
        direction_name: None,
        destination_ref: destination.and_then(wrap),
        journey_note: None,
        estimated_calls: Some(EstimatedCalls {
            estimated_call: calls,
        }),
    }
}

fn stop(gtfs: &mut Gtfs, id: &str, parent: Option<&str>) {
    gtfs.stops.insert(
        id.to_string(),
        Stop {
            parent_station: parent.map(str::to_string),
        },
    );
}

fn trip(gtfs: &mut Gtfs, id: &str, route: &str, stops: &[(&str, u32)]) {
    gtfs.trips.insert(
        id.to_string(),
        Trip {
            id: id.to_string(),
            service_id: "weekdays".to_string(),
            route_id: route.to_string(),
            stop_times: stops
                .iter()
                .map(|(stop_id, seconds)| StopTime {
                    stop_id: (*stop_id).to_string(),
                    arrival_time: Some(*seconds),
                    departure_time: Some(*seconds),
                })
                .collect(),
            trip_short_name: None,
        },
    );
}

fn schedule() -> Gtfs {
    let mut gtfs = Gtfs::new();
    stop(&mut gtfs, "IDFM:1", Some("IDFM:S1"));
    stop(&mut gtfs, "IDFM:11", Some("IDFM:S1"));
    stop(&mut gtfs, "IDFM:2", None);
    stop(&mut gtfs, "IDFM:3", None);
    stop(&mut gtfs, "IDFM:9", None);
    stop(&mut gtfs, "IDFM:S1", None);
    let eight = 8 * 3600;
    trip(&mut gtfs, "T:early", "IDFM:L", &[("IDFM:1", eight), ("IDFM:2", eight + 600)]);
    trip(&mut gtfs, "T:late", "IDFM:L", &[("IDFM:1", eight + 1800), ("IDFM:2", eight + 2400)]);
    trip(&mut gtfs, "T:other", "IDFM:L", &[("IDFM:1", eight), ("IDFM:3", eight + 600)]);
    gtfs.calendar.insert(
        "weekdays".to_string(),
        Calendar {
            start_date: MONDAY,
            end_date: MONDAY + 100,
            monday: true,
            tuesday: true,
            wednesday: true,
            thursday: true,
            friday: true,
            saturday: false,
            sunday: false,
        },
    );
    gtfs
}

const LINE: Option<&str> = Some("STIF:Line::L:");
const AT_EIGHT: Option<&str> = Some("2026-07-13T08:01:00+02:00");
const TEN_PAST: Option<&str> = Some("2026-07-13T08:11:00+02:00");

#[test]
fn resolves_sncf_stop_area_to_namespaced_gtfs_stop() {
    let mut gtfs = Gtfs::new();
    stop(&mut gtfs, "IDFM:monomodalStopPlace:47874", None);
    let index = GtfsMatchIndex::build(&gtfs);
    let resolved = index.resolve_siri_stop_ids("STIF:StopArea:SP:47874:");
    assert_eq!(resolved, vec!["IDFM:monomodalStopPlace:47874".to_string()]);
}

#[test]
fn exact_trip_without_stop_alignment_is_rejected() {
    let mut gtfs = Gtfs::new();
    gtfs.trips.insert(
        "some-uuid-trip-id".to_string(),
        Trip {
            id: "some-uuid-trip-id".to_string(),
            service_id: "service-id".to_string(),
            route_id: "IDFM:route-id".to_string(),
            stop_times: vec![StopTime {
                stop_id: "IDFM:monomodalStopPlace:12345".to_string(),
                arrival_time: None,
                departure_time: None,
            }],
            trip_short_name: None,
        },
    );
    stop(&mut gtfs, "IDFM:monomodalStopPlace:12345", None);
    stop(&mut gtfs, "IDFM:monomodalStopPlace:47874", None);
    let index = GtfsMatchIndex::build(&gtfs);
    let journey = journey(
        Some("SIRI::some-uuid-trip-id"),
        Some("STIF:Line::route-id:"),
        None,
        vec![call("STIF:StopPoint:Q:47874:", None)],
    );

    let result = index.match_journey(&journey, &gtfs);
    assert!(result.is_err());
}

#[test]
fn the_trip_with_the_least_difference_is_found_by_direction() {
    let gtfs = schedule();
    let index = GtfsMatchIndex::build(&gtfs);
    let found = index
        .match_journey(
            &journey(None, LINE, None, vec![call("Q:1:", AT_EIGHT), call("Q:2:", TEN_PAST)]),
            &gtfs,
        )
        .unwrap();
    assert_eq!(found.trip_id, "T:early");
    assert_eq!(found.kind, MatchKind::DirectionAndTime);
    assert_eq!(found.service_date, Some(MONDAY));
    assert_eq!(found.mean_abs_difference_seconds, Some(60));
    assert_eq!(found.stop_indices, vec![0, 1]);
    assert!(!found.used_parent_station_match);
}

#[test]
fn a_sibling_platform_is_the_last_resort() {
    let gtfs = schedule();
    let index = GtfsMatchIndex::build(&gtfs);
    let found = index
        .match_journey(
            &journey(None, LINE, None, vec![call("Q:11:", AT_EIGHT), call("Q:2:", TEN_PAST)]),
            &gtfs,
        )
        .unwrap();
    assert_eq!(found.trip_id, "T:early");
    assert!(found.used_parent_station_match);
}

#[test]
fn a_destination_narrows_the_directions() {
    let gtfs = schedule();
    let index = GtfsMatchIndex::build(&gtfs);
    let first_call = || vec![call("Q:1:", AT_EIGHT)];
    let to_three = index
        .match_journey(&journey(None, LINE, Some("Q:3:"), first_call()), &gtfs)
        .unwrap();
    assert_eq!(to_three.trip_id, "T:other");
    let anywhere = index
        .match_journey(&journey(None, LINE, None, first_call()), &gtfs)
        .unwrap();
    assert_eq!(anywhere.trip_id, "T:early");
}

#[test]
fn a_named_trip_is_found_by_identifier_and_by_suffix() {
    let gtfs = schedule();
    let index = GtfsMatchIndex::build(&gtfs);
    for name in ["SIRI::T:late", "SIRI::late:LOC"] {
        let found = index
            .match_journey(
                &journey(Some(name), LINE, None, vec![call("Q:1:", AT_EIGHT)]),
                &gtfs,
            )
            .unwrap();
        assert_eq!(found.trip_id, "T:late");
        assert_eq!(found.kind, MatchKind::ExactId);
        assert_eq!(found.mean_abs_difference_seconds, Some(1740));
    }
}

#[test]
fn a_named_trip_without_times_is_found_by_its_stops() {
    let gtfs = schedule();
    let index = GtfsMatchIndex::build(&gtfs);
    let found = index
        .match_journey(
            &journey(Some("SIRI::T:late"), LINE, None, vec![call("Q:2:", None)]),
            &gtfs,
        )
        .unwrap();
    assert_eq!(found.stop_indices, vec![1]);
    assert_eq!(found.mean_abs_difference_seconds, None);
    assert_eq!(found.service_date, None);
}

#[test]
fn a_named_trip_of_another_line_is_not_taken() {
    let mut gtfs = schedule();
    trip(&mut gtfs, "U:1", "IDFM:M", &[("IDFM:1", 0)]);
    let index = GtfsMatchIndex::build(&gtfs);
    let result = index.match_journey(
        &journey(Some("SIRI::U:1"), LINE, None, vec![call("Q:1:", None)]),
        &gtfs,
    );
    assert_eq!(result.err(), Some(MatchMissReason::NoUsableTimes));
}

#[test]
fn every_reason_has_a_journey() {
    let gtfs = schedule();
    let index = GtfsMatchIndex::build(&gtfs);
    let miss = |journey: EstimatedVehicleJourney| index.match_journey(&journey, &gtfs).err();
    assert_eq!(
        miss(journey(None, LINE, None, vec![call("Q:404:", AT_EIGHT)])),
        Some(MatchMissReason::NoObservedCalls)
    );
    assert_eq!(
        miss(journey(None, LINE, None, vec![call("Q:1:", None)])),
        Some(MatchMissReason::NoUsableTimes)
    );
    assert_eq!(
        miss(journey(None, None, None, vec![call("Q:1:", AT_EIGHT)])),
        Some(MatchMissReason::MissingLineRef)
    );
    assert_eq!(
        miss(journey(None, Some("STIF:Line::X:"), None, vec![call("Q:1:", AT_EIGHT)])),
        Some(MatchMissReason::RouteNotFound)
    );
    assert_eq!(
        miss(journey(None, LINE, None, vec![call("Q:9:", AT_EIGHT)])),
        Some(MatchMissReason::NoStopAlignment)
    );
    assert_eq!(
        miss(journey(
            None,
            LINE,
            None,
            vec![call("Q:1:", Some("2026-07-12T08:00:00+02:00"))]
        )),
        Some(MatchMissReason::InactiveServiceDate)
    );
    let mut untimed = schedule();
    untimed.trips.insert(
        "V".to_string(),
        Trip {
            id: "V".to_string(),
            service_id: "weekdays".to_string(),
            route_id: "IDFM:V".to_string(),
            stop_times: vec![StopTime {
                stop_id: "IDFM:9".to_string(),
                arrival_time: None,
                departure_time: None,
            }],
            trip_short_name: None,
        },
    );
    let untimed_index = GtfsMatchIndex::build(&untimed);
    assert_eq!(
        untimed_index
            .match_journey(
                &journey(None, Some("STIF:Line::V:"), None, vec![call("Q:9:", AT_EIGHT)]),
                &untimed
            )
            .err(),
        Some(MatchMissReason::NoTimeComparisons)
    );
}

#[test]
fn reasons_have_names() {
    assert_eq!(MatchMissReason::NoObservedCalls.as_str(), "no_observed_calls");
    assert_eq!(MatchMissReason::NoUsableTimes.as_str(), "no_usable_times");
    assert_eq!(MatchMissReason::MissingLineRef.as_str(), "missing_or_invalid_line_ref");
    assert_eq!(MatchMissReason::RouteNotFound.as_str(), "route_not_found");
    assert_eq!(MatchMissReason::NoStopAlignment.as_str(), "no_stop_alignment");
    assert_eq!(MatchMissReason::InactiveServiceDate.as_str(), "inactive_service_date");
    assert_eq!(MatchMissReason::NoTimeComparisons.as_str(), "no_time_comparisons");
}

#[test]
fn a_journey_without_alignment_is_diagnosed() {
    let gtfs = schedule();
    let index = GtfsMatchIndex::build(&gtfs);
    let backwards = journey(None, LINE, None, vec![call("Q:2:", AT_EIGHT), call("Q:1:", TEN_PAST)]);
    let found = index.diagnose_stop_alignment(&backwards).unwrap();
    assert_eq!(found.kind, StopAlignmentFailureKind::AllStopsKnownButWrongOrder);
    assert_eq!(found.best_parent_matched_calls, 1);

    let filtered = journey(
        None,
        LINE,
        Some("Q:3:"),
        vec![call("Q:1:", AT_EIGHT), call("Q:2:", TEN_PAST)],
    );
    let found = index.diagnose_stop_alignment(&filtered).unwrap();
    assert_eq!(found.kind, StopAlignmentFailureKind::DestinationFilterMismatch);

    assert!(index
        .diagnose_stop_alignment(&journey(None, LINE, None, Vec::new()))
        .is_none());
    assert!(index
        .diagnose_stop_alignment(&journey(None, None, None, vec![call("Q:1:", None)]))
        .is_none());
}

#[test]
fn the_index_groups_trips_by_their_stops() {
    let gtfs = schedule();
    let index = GtfsMatchIndex::build(&gtfs);
    assert_eq!(index.direction_count(), 2);
    assert_eq!(index.trip_ids_for_route("IDFM:L"), ["T:early", "T:late", "T:other"]);
    assert!(index.trip_ids_for_route("IDFM:X").is_empty());
    let patterns = index.directions.get("IDFM:L").unwrap();
    assert_eq!(patterns[0].destination_stop_id, "IDFM:2");
    assert_eq!(patterns[0].trip_ids, ["T:early", "T:late"]);
    assert_eq!(patterns[1].destination_stop_id, "IDFM:3");
    assert_eq!(patterns[1].stop_ids, ["IDFM:1", "IDFM:3"]);
}

#[test]
fn stations_stand_at_the_top_even_of_a_ring() {
    let mut gtfs = Gtfs::new();
    stop(&mut gtfs, "a", Some("b"));
    stop(&mut gtfs, "b", Some("c"));
    stop(&mut gtfs, "c", Some("gone"));
    stop(&mut gtfs, "r1", Some("r2"));
    stop(&mut gtfs, "r2", Some("r1"));
    stop(&mut gtfs, "in", Some("r1"));
    stop(&mut gtfs, "self", Some("self"));
    let index = GtfsMatchIndex::build(&gtfs);
    let station = |id: &str| index.canonical_stop_ids.get(id).unwrap().clone();
    assert_eq!(station("a"), "gone");
    assert_eq!(station("r1"), "r1");
    assert_eq!(station("r2"), "r2");
    assert_eq!(station("in"), "r1");
    assert_eq!(station("self"), "self");
    assert!(index.stops_equivalent("a", "b"));
    assert!(!index.stops_equivalent("r1", "r2"));
}

#[test]
fn means_compare_without_overflow() {
    assert_eq!(compare_means(1, 3, 1, 2), MeanOrder::Less);
    assert_eq!(compare_means(2, 4, 1, 2), MeanOrder::Same);
    assert_eq!(compare_means(7, 2, 10, 3), MeanOrder::Greater);
    assert_eq!(compare_means(u128::MAX, u128::MAX - 1, u128::MAX - 1, u128::MAX - 2), MeanOrder::Less);
}

#[test]
fn scores_prefer_a_lesser_mean_then_maximum_then_more_comparisons() {
    let score = |total_difference, max_difference, comparisons| DpScore {
        total_difference,
        max_difference,
        comparisons,
    };
    assert!(score(10, 9, 2).is_better_than(&score(11, 6, 2)));
    assert!(score(10, 5, 2).is_better_than(&score(10, 6, 2)));
    assert!(score(20, 5, 4).is_better_than(&score(10, 5, 2)));
    assert!(score(10, 5, 2).is_better_than(&score(0, 0, 0)));
    assert!(!score(0, 0, 0).is_better_than(&score(10, 5, 2)));
    assert!(!score(0, 0, 0).is_better_than(&score(0, 0, 0)));
}

#[test]
fn candidates_prefer_later_days_and_then_lesser_identifiers() {
    let candidate = |trip_id: &str, service_date| CandidateScore {
        trip_id: trip_id.to_string(),
        service_date,
        mean_abs_difference_seconds: 1,
        max_abs_difference_seconds: 1,
        comparisons: 1,
        stop_indices: Vec::new(),
        used_parent_station_match: false,
    };
    assert!(candidate("b", MONDAY + 1).is_better_than(&candidate("a", MONDAY)));
    assert!(candidate("a", MONDAY).is_better_than(&candidate("b", MONDAY)));
    assert!(!candidate("a", MONDAY).is_better_than(&candidate("a", MONDAY)));
}
