use dashmap::DashMap;
use idfm_realtime::enhanced_processor::{
    self, build_extra_journey_entity, build_matched_entity, sort_for_strict_matcher, vehicle_key,
};
use idfm_realtime::feed::{FeedBuilder, FeedEntity, TripDescriptor, TripUpdate};
use idfm_realtime::gtfs::{Calendar, Gtfs, Route, Stop, StopTime, Trip};
use idfm_realtime::matching::{JourneyMatch, MatchKind, MatchMissReason};
use idfm_realtime::processor::{
    self, estimated_call_sort_key, is_cancelled_status, sort_estimated_calls_by_time, SiriReport,
};
use idfm_realtime::siri_models::{
    EstimatedCall, EstimatedCalls, EstimatedJourneyVersionFrame, EstimatedTimetableDelivery,
    EstimatedVehicleJourney, ServiceDelivery, Siri, SiriResponse, ValueWrapper,
};
use idfm_realtime::state::{LoadedGtfs, PlatformInfo, VehicleAssignment};

const MONDAY: i32 = 739_810;
const EIGHT: u32 = 8 * 3600;
const NOW: i64 = 1_783_922_400;

fn wrap(value: &str) -> Option<ValueWrapper> {
    Some(ValueWrapper {
        value: Some(value.to_string()),
    })
}

fn estimated_call(
    stop_id: &str,
    aimed_departure: Option<&str>,
    expected_departure: Option<&str>,
) -> EstimatedCall {
    EstimatedCall {
        stop_point_ref: wrap(stop_id),
        aimed_arrival_time: None,
        aimed_departure_time: aimed_departure.map(|value| value.to_string()),
        expected_arrival_time: None,
        expected_departure_time: expected_departure.map(|value| value.to_string()),
        arrival_status: None,
        departure_status: None,
        arrival_platform_name: None,
        departure_platform_name: None,
    }
}

fn journey(name: Option<&str>, line: Option<&str>, calls: Vec<EstimatedCall>) -> EstimatedVehicleJourney {
    EstimatedVehicleJourney {
        dated_vehicle_journey_ref: name.and_then(wrap),
        line_ref: line.and_then(wrap),
        operator_ref: None,
        direction_ref: None,
        direction_name: None,
        destination_ref: None,
        journey_note: None,
        estimated_calls: Some(EstimatedCalls {
            estimated_call: calls,
        }),
    }
}

fn response(journeys: Vec<EstimatedVehicleJourney>) -> SiriResponse {
    SiriResponse {
        siri: Siri {
            service_delivery: ServiceDelivery {
                estimated_timetable_delivery: vec![EstimatedTimetableDelivery {
                    estimated_journey_version_frame: vec![EstimatedJourneyVersionFrame {
                        estimated_vehicle_journey: journeys,
                    }],
                }],
            },
        },
    }
}

fn stop(gtfs: &mut Gtfs, id: &str) {
    gtfs.stops.insert(id.to_string(), Stop { parent_station: None });
}

fn trip(gtfs: &mut Gtfs, id: &str, stops: &[(&str, Option<u32>)]) {
    gtfs.trips.insert(
        id.to_string(),
        Trip {
            id: id.to_string(),
            service_id: "daily".to_string(),
            route_id: "IDFM:L".to_string(),
            stop_times: stops
                .iter()
                .map(|(stop_id, seconds)| StopTime {
                    stop_id: (*stop_id).to_string(),
                    arrival_time: *seconds,
                    departure_time: *seconds,
                })
                .collect(),
            trip_short_name: None,
        },
    );
}

fn loaded() -> LoadedGtfs {
    let mut gtfs = Gtfs::new();
    for id in ["IDFM:1", "IDFM:2", "IDFM:3", "IDFM:9"] {
        stop(&mut gtfs, id);
    }
    trip(&mut gtfs, "T:1", &[("IDFM:1", Some(EIGHT)), ("IDFM:2", Some(EIGHT + 600)), ("IDFM:3", Some(EIGHT + 1200))]);
    trip(&mut gtfs, "T:2", &[("IDFM:1", Some(EIGHT + 3600)), ("IDFM:2", Some(EIGHT + 4200))]);
    gtfs.routes.insert(
        "IDFM:L".to_string(),
        Route {
            agency_id: None,
            route_type: "Bus".to_string(),
        },
    );
    gtfs.calendar.insert(
        "daily".to_string(),
        Calendar {
            start_date: MONDAY,
            end_date: MONDAY + 10,
            monday: true,
            tuesday: true,
            wednesday: true,
            thursday: true,
            friday: true,
            saturday: true,
            sunday: true,
        },
    );
    LoadedGtfs::new(gtfs)
}

fn at(hour: u32, minute: u32) -> String {
    format!("2026-07-13T{hour:02}:{minute:02}:00+02:00")
}

const LINE: Option<&str> = Some("STIF:Line::L:");

#[test]
fn sorts_estimated_calls_chronologically_and_keeps_missing_times_last() {
    let mut calls = vec![
        estimated_call("late", Some("2026-07-12T10:00:00+02:00"), None),
        estimated_call("missing", None, None),
        estimated_call("early-expected", None, Some("2026-07-12T08:00:00+02:00")),
        estimated_call("middle", Some("2026-07-12T09:00:00+02:00"), None),
    ];

    calls.sort_by_cached_key(estimated_call_sort_key);

    let stop_ids = calls
        .iter()
        .map(|call| call.stop_point_ref.as_ref().unwrap().value.as_deref().unwrap())
        .collect::<Vec<_>>();

    assert_eq!(stop_ids, vec!["early-expected", "middle", "late", "missing"]);
}

#[test]
fn calls_of_the_same_time_keep_their_order() {
    let nine = at(9, 0);
    let mut journey = journey(
        None,
        None,
        vec![
            estimated_call("x", None, None),
            estimated_call("b", Some(&nine), None),
            estimated_call("a", None, Some(&nine)),
            estimated_call("first", Some(&at(8, 59)), Some(&at(10, 0))),
            estimated_call("y", Some("never"), None),
        ],
    );
    sort_estimated_calls_by_time(&mut journey);
    let order = journey
        .estimated_calls
        .unwrap()
        .estimated_call
        .iter()
        .map(|call| call.stop_point_ref.as_ref().unwrap().value.clone().unwrap())
        .collect::<Vec<_>>();
    assert_eq!(order, ["first", "b", "a", "x", "y"]);
}

#[test]
fn recognises_cancelled_siri_statuses() {
    assert!(is_cancelled_status("CANCELLED"));
    assert!(is_cancelled_status("cancelled"));
    assert!(is_cancelled_status("CANCELED"));
    assert!(!is_cancelled_status("ON_TIME"));
}

#[test]
fn rail_trip_updates_only_use_static_trip_stop_ids() {
    let mut gtfs = Gtfs::new();
    gtfs.trips.insert(
        "trip-1".to_string(),
        Trip {
            id: "trip-1".to_string(),
            service_id: "service-1".to_string(),
            route_id: "IDFM:route-1".to_string(),
            stop_times: vec![StopTime {
                stop_id: "IDFM:monomodalStopPlace:12345".to_string(),
                arrival_time: None,
                departure_time: None,
            }],
            trip_short_name: None,
        },
    );
    stop(&mut gtfs, "IDFM:monomodalStopPlace:12345");
    stop(&mut gtfs, "IDFM:monomodalStopPlace:47874");
    let loaded = LoadedGtfs::new(gtfs);
    let journey = journey(
        Some("SIRI::trip-1"),
        Some("STIF:Line::route-1:"),
        vec![estimated_call("STIF:StopPoint:Q:47874:", None, None)],
    );

    let mut trip_platforms = DashMap::new();
    let (feed, report) =
        processor::process_siri(Some(&loaded), response(vec![journey]), NOW, &mut trip_platforms);

    assert_eq!(feed.entity.len(), 1);
    let update = &feed.entity[0].trip_update;
    assert!(update.stop_time_update.is_empty());
    assert_eq!(update.trip.trip_id, "trip-1");
    assert_eq!(report.unmatched, 1);
}

#[test]
fn a_matched_journey_is_published_stop_by_stop() {
    let loaded = loaded();
    let mut first = estimated_call("Q:1:", Some(&at(8, 0)), Some(&at(8, 2)));
    first.departure_platform_name = wrap("A");
    first.arrival_platform_name = wrap("B");
    let mut second = estimated_call("Q:2:", Some(&at(8, 10)), None);
    second.arrival_status = Some("Cancelled".to_string());
    second.arrival_platform_name = wrap("unknown");
    let unknown_stop = estimated_call("Q:404:", Some(&at(8, 5)), None);
    let mut trip_platforms = DashMap::new();
    let (feed, report) = processor::process_siri(
        Some(&loaded),
        response(vec![journey(None, LINE, vec![second, unknown_stop, first])]),
        NOW,
        &mut trip_platforms,
    );

    assert_eq!(feed.gtfs_realtime_version, "2.0");
    assert_eq!(feed.timestamp, Some(NOW as u64));
    assert_eq!(feed.entity.len(), 1);
    assert_eq!(feed.entity[0].id, "T:1");
    let update = &feed.entity[0].trip_update;
    assert_eq!(update.trip.start_date, Some("20260713".to_string()));
    assert!(!update.trip.added);
    assert_eq!(update.stop_time_update.len(), 2);
    assert_eq!(update.stop_time_update[0].stop_id, "IDFM:1");
    assert_eq!(update.stop_time_update[0].departure, Some(NOW + 120));
    assert_eq!(update.stop_time_update[0].arrival, None);
    assert!(!update.stop_time_update[0].skipped);
    assert_eq!(update.stop_time_update[1].stop_id, "IDFM:2");
    assert_eq!(update.stop_time_update[1].departure, Some(NOW + 600));
    assert!(update.stop_time_update[1].skipped);

    let platforms = trip_platforms.get("T:1").unwrap();
    assert_eq!(platforms.len(), 1);
    assert_eq!(platforms[0].stop_id, "IDFM:1");
    assert_eq!(platforms[0].platform_name, "A");

    assert_eq!(report.sequence_matches, 1);
    assert_eq!(report.exact_matches, 0);
    assert_eq!(report.unmatched, 0);
    assert_eq!(report.average_difference_seconds(), Some(0));
}

#[test]
fn an_expected_time_that_cannot_be_read_is_not_replaced() {
    let loaded = loaded();
    let mut call = estimated_call("Q:1:", Some(&at(8, 0)), Some("soon"));
    call.departure_status = Some("CANCELED".to_string());
    let (feed, _) = processor::process_siri(
        Some(&loaded),
        response(vec![journey(None, LINE, vec![call])]),
        NOW,
        &mut DashMap::new(),
    );
    let update = &feed.entity[0].trip_update.stop_time_update[0];
    assert_eq!(update.departure, None);
    assert!(update.skipped);
}

#[test]
fn missed_journeys_are_counted_and_sampled_by_reason() {
    let loaded = loaded();
    let mut journeys = Vec::new();
    for _ in 0..25 {
        journeys.push(journey(None, LINE, vec![estimated_call("Q:1:", None, None)]));
    }
    journeys.push(journey(None, LINE, vec![estimated_call("Q:9:", Some(&at(8, 0)), None)]));
    let (feed, report) =
        processor::process_siri(Some(&loaded), response(journeys), NOW, &mut DashMap::new());
    assert!(feed.entity.is_empty());
    assert_eq!(report.unmatched, 26);
    assert_eq!(report.missed_by_reason.get("no_usable_times"), Some(&25));
    assert_eq!(report.missed_by_reason.get("no_stop_alignment"), Some(&1));
    assert_eq!(report.missed_examples.len(), 21);
    assert_eq!(report.missed_examples[0].reason, "no_usable_times");
    assert!(report.missed_examples[0].stop_alignment.is_none());
    assert_eq!(report.missed_examples[20].original_reason, MatchMissReason::NoStopAlignment);
    assert!(report.missed_examples[20].stop_alignment.is_some());
    assert_eq!(report.average_difference_seconds(), None);
}

#[test]
fn a_failure_of_alignment_is_counted_by_its_kind() {
    let loaded = loaded();
    let backwards = journey(
        None,
        LINE,
        vec![
            estimated_call("Q:2:", Some(&at(8, 0)), None),
            estimated_call("Q:1:", Some(&at(8, 10)), None),
        ],
    );
    let (_, report) =
        processor::process_siri(Some(&loaded), response(vec![backwards]), NOW, &mut DashMap::new());
    assert_eq!(report.missed_by_reason.get("all_stops_known_but_wrong_order"), Some(&1));
    assert_eq!(report.missed_by_reason.get("no_stop_alignment"), None);
}

#[test]
fn averages_are_cut_towards_zero() {
    let mut report = SiriReport::new();
    report.scored_matches = 3;
    report.total_mean_difference_seconds = 11;
    assert_eq!(report.average_difference_seconds(), Some(3));
    report.total_mean_difference_seconds = -11;
    assert_eq!(report.average_difference_seconds(), Some(-3));
    report.scored_matches = 1;
    report.total_mean_difference_seconds = i128::MIN;
    assert_eq!(report.average_difference_seconds(), Some(i128::MIN));
}

#[test]
fn journeys_are_read_in_the_order_of_the_delivery() {
    let mut siri = response(vec![
        journey(Some("a"), None, Vec::new()),
        journey(Some("b"), None, Vec::new()),
    ]);
    siri.siri.service_delivery.estimated_timetable_delivery.extend(
        response(vec![journey(Some("c"), None, Vec::new())])
            .siri
            .service_delivery
            .estimated_timetable_delivery,
    );
    let names = processor::journeys_in(siri)
        .iter()
        .map(|journey| vehicle_key(journey).unwrap().to_string())
        .collect::<Vec<_>>();
    assert_eq!(names, ["a", "b", "c"]);
}

#[test]
fn without_a_schedule_nothing_is_read() {
    let mut trip_platforms: DashMap<String, Vec<PlatformInfo>> = DashMap::new();
    let mut vehicle_assignments: DashMap<String, VehicleAssignment> = DashMap::new();
    let outcome = enhanced_processor::process_siri(
        None,
        response(vec![journey(Some("v"), LINE, Vec::new())]),
        NOW,
        &mut trip_platforms,
        &mut vehicle_assignments,
    );
    assert_eq!(outcome.feed.timestamp, None);
    assert!(outcome.feed.entity.is_empty());
    assert_eq!(outcome.report.unmatched, 0);
}

fn repeated_calls(name: &str, minutes: [u32; 3]) -> EstimatedVehicleJourney {
    journey(
        Some(name),
        LINE,
        vec![
            estimated_call("Q:2:", None, Some(&at(8, minutes[0]))),
            estimated_call("Q:1:", None, Some(&at(8, minutes[1]))),
            estimated_call("Q:1:", None, Some(&at(8, minutes[2]))),
        ],
    )
}

#[test]
fn a_journey_that_the_strict_match_misses_is_recovered() {
    let loaded = loaded();
    let mut recovered = repeated_calls("vehicle", [10, 1, 2]);
    recovered.estimated_calls.as_mut().unwrap().estimated_call[0].arrival_platform_name = wrap("7");
    recovered.estimated_calls.as_mut().unwrap().estimated_call[1].arrival_platform_name =
        wrap("UNKNOWN");
    let mut trip_platforms = DashMap::new();
    let mut vehicle_assignments = DashMap::new();
    let outcome = enhanced_processor::process_siri(
        Some(&loaded),
        response(vec![recovered]),
        NOW,
        &mut trip_platforms,
        &mut vehicle_assignments,
    );
    assert_eq!(outcome.adaptive_matches, 1);
    assert_eq!(outcome.cached_matches, 0);
    assert_eq!(outcome.feed.entity.len(), 1);
    let update = &outcome.feed.entity[0].trip_update;
    assert_eq!(update.trip.trip_id, "T:1");
    assert_eq!(update.stop_time_update.len(), 3);
    assert_eq!(update.stop_time_update[0].stop_id, "IDFM:2");
    assert_eq!(update.stop_time_update[0].departure, Some(NOW + 600));
    assert_eq!(trip_platforms.get("T:1").unwrap().len(), 1);
    let assignment = vehicle_assignments.get("vehicle").unwrap();
    assert_eq!(assignment.trip_id, "T:1");
    assert_eq!(assignment.route_id, "IDFM:L");
    assert_eq!(assignment.service_date, Some(MONDAY));
    assert_eq!(assignment.last_seen_epoch, NOW);
}

#[test]
fn a_recovered_trip_does_not_displace_a_strict_one() {
    let loaded = loaded();
    let strict = journey(
        None,
        LINE,
        vec![
            estimated_call("Q:1:", Some(&at(8, 5)), None),
            estimated_call("Q:3:", Some(&at(8, 25)), None),
        ],
    );
    let mut trip_platforms = DashMap::new();
    let outcome = enhanced_processor::process_siri(
        Some(&loaded),
        response(vec![repeated_calls("vehicle", [10, 1, 2]), strict]),
        NOW,
        &mut trip_platforms,
        &mut DashMap::new(),
    );
    assert_eq!(outcome.adaptive_matches, 1);
    assert_eq!(outcome.feed.entity.len(), 1);
    assert_eq!(outcome.feed.entity[0].trip_update.stop_time_update.len(), 2);
    assert_eq!(outcome.feed.entity[0].trip_update.stop_time_update[1].stop_id, "IDFM:3");
}

/// A journey that names a trip and tells no time, at a stop that the trip does not have.
fn untimed(name: &str) -> EstimatedVehicleJourney {
    journey(Some(name), LINE, vec![estimated_call("Q:9:", None, None)])
}

#[test]
fn a_recovered_trip_follows_the_strict_feed() {
    let loaded = loaded();
    let journeys = vec![repeated_calls("vehicle", [10, 1, 2]), untimed("SIRI::T:2")];
    let (strict, _) = processor::process_siri(
        Some(&loaded),
        response(journeys.clone()),
        NOW,
        &mut DashMap::new(),
    );
    assert_eq!(strict.entity.len(), 1);
    assert_eq!(strict.entity[0].id, "T:2");
    assert!(strict.entity[0].trip_update.stop_time_update.is_empty());
    assert_eq!(strict.entity[0].trip_update.trip.start_date, None);

    let outcome = enhanced_processor::process_siri(
        Some(&loaded),
        response(journeys),
        NOW,
        &mut DashMap::new(),
        &mut DashMap::new(),
    );
    assert_eq!(outcome.feed.entity.len(), 2);
    assert_eq!(outcome.feed.entity[0].id, "T:2");
    assert!(outcome.feed.entity[0].trip_update.stop_time_update.is_empty());
    assert_eq!(outcome.feed.entity[1].id, "T:1");
    assert_eq!(outcome.feed.entity[1].trip_update.stop_time_update.len(), 3);
}

#[test]
fn a_named_trip_is_recovered_where_there_are_times() {
    let loaded = loaded();
    let journeys = vec![repeated_calls("SIRI::T:1", [10, 1, 2])];
    let (strict, report) = processor::process_siri(
        Some(&loaded),
        response(journeys.clone()),
        NOW,
        &mut DashMap::new(),
    );
    assert!(strict.entity.is_empty());
    assert_eq!(report.unmatched, 1);

    let outcome = enhanced_processor::process_siri(
        Some(&loaded),
        response(journeys),
        NOW,
        &mut DashMap::new(),
        &mut DashMap::new(),
    );
    assert_eq!(outcome.feed.entity.len(), 1);
    assert_eq!(outcome.feed.entity[0].id, "T:1");
    assert_eq!(outcome.feed.entity[0].trip_update.stop_time_update.len(), 3);
}

#[test]
fn a_matched_trip_is_told_once() {
    let loaded = loaded();
    let matched = journey(
        None,
        LINE,
        vec![
            estimated_call("Q:1:", Some(&at(8, 5)), None),
            estimated_call("Q:3:", Some(&at(8, 25)), None),
        ],
    );
    let (feed, report) = processor::process_siri(
        Some(&loaded),
        response(vec![untimed("SIRI::T:1"), untimed("SIRI::T:1"), untimed("SIRI::T:2"), matched]),
        NOW,
        &mut DashMap::new(),
    );
    assert_eq!(report.unmatched, 3);
    assert_eq!(feed.entity.len(), 2);
    assert_eq!(feed.entity[0].id, "T:1");
    assert_eq!(feed.entity[0].trip_update.stop_time_update.len(), 2);
    assert_eq!(feed.entity[1].id, "T:2");
    assert!(feed.entity[1].trip_update.stop_time_update.is_empty());
}

#[test]
fn putting_calls_in_order_leaves_the_rest_of_a_journey() {
    let mut sorted = repeated_calls("vehicle", [10, 1, 2]);
    sorted.direction_ref = wrap("A");
    sorted.direction_name = Some(vec![ValueWrapper { value: Some("North".to_string()) }]);
    sorted.journey_note = Some(vec![ValueWrapper { value: None }]);
    let before = format!("{:?}", sorted.copy());
    assert_eq!(before, format!("{sorted:?}"));
    sort_estimated_calls_by_time(&mut sorted);
    assert_eq!(sorted.direction_ref.as_ref().unwrap().value, Some("A".to_string()));
    assert_eq!(sorted.direction_name.as_ref().unwrap()[0].value, Some("North".to_string()));
    assert_eq!(sorted.journey_note.as_ref().unwrap().len(), 1);
    let once = format!("{sorted:?}");
    assert_ne!(before, once);
    sort_for_strict_matcher(&mut sorted);
    assert_eq!(once, format!("{sorted:?}"));

    let mut without = journey(None, LINE, Vec::new());
    without.estimated_calls = None;
    sort_estimated_calls_by_time(&mut without);
    assert!(without.estimated_calls.is_none());
}

fn assignment(last_seen_epoch: i64) -> VehicleAssignment {
    VehicleAssignment {
        trip_id: "T:2".to_string(),
        route_id: "IDFM:L".to_string(),
        service_date: None,
        last_seen_epoch,
    }
}

#[test]
fn a_vehicle_is_known_again_for_a_quarter_of_an_hour() {
    let loaded = loaded();
    for (seen, cached_matches) in [(NOW - 900, 1), (NOW - 901, 0)] {
        let mut journey = journey(
            Some("vehicle"),
            LINE,
            vec![
                estimated_call("Q:2:", None, Some(&at(9, 10))),
                estimated_call("Q:1:", None, Some(&at(9, 12))),
            ],
        );
        journey.operator_ref = wrap("RATP-SIV:Operator:x");
        let mut vehicle_assignments = DashMap::new();
        vehicle_assignments.insert("vehicle".to_string(), assignment(seen));
        let outcome = enhanced_processor::process_siri(
            Some(&loaded),
            response(vec![journey]),
            NOW,
            &mut DashMap::new(),
            &mut vehicle_assignments,
        );
        assert_eq!(outcome.adaptive_matches, 0);
        assert_eq!(outcome.cached_matches, cached_matches);
        assert_eq!(outcome.feed.entity.len(), cached_matches);
        let assignment = vehicle_assignments.get("vehicle").unwrap();
        if cached_matches == 1 {
            assert_eq!(outcome.feed.entity[0].id, "T:2");
            assert_eq!(outcome.feed.entity[0].trip_update.stop_time_update.len(), 2);
            assert_eq!(assignment.last_seen_epoch, NOW);
            assert_eq!(assignment.service_date, Some(MONDAY));
        } else {
            assert_eq!(assignment.last_seen_epoch, seen);
        }
    }
}

#[test]
fn old_assignments_are_forgotten() {
    let loaded = loaded();
    let mut vehicle_assignments = DashMap::new();
    vehicle_assignments.insert("old".to_string(), assignment(NOW - 21_601));
    vehicle_assignments.insert("kept".to_string(), assignment(NOW - 21_600));
    vehicle_assignments.insert("ahead".to_string(), assignment(i64::MAX));
    vehicle_assignments.insert("ancient".to_string(), assignment(i64::MIN));
    enhanced_processor::process_siri(
        Some(&loaded),
        response(Vec::new()),
        NOW,
        &mut DashMap::new(),
        &mut vehicle_assignments,
    );
    assert!(vehicle_assignments.contains_key("kept"));
    assert!(vehicle_assignments.contains_key("ahead"));
    assert_eq!(vehicle_assignments.len(), 2);
}

#[test]
fn an_entity_needs_a_call_at_a_stop() {
    let loaded = loaded();
    let matched = |stop_indices| JourneyMatch {
        trip_id: "T:1".to_string(),
        service_date: None,
        kind: MatchKind::DirectionAndTime,
        mean_abs_difference_seconds: None,
        stop_indices,
        used_parent_station_match: false,
    };
    let journey = journey(None, LINE, vec![estimated_call("Q:1:", None, None)]);
    assert!(build_matched_entity(&journey, &matched(vec![usize::MAX]), &loaded.gtfs).is_none());
    assert!(build_matched_entity(&journey, &matched(vec![3]), &loaded.gtfs).is_none());
    assert!(build_matched_entity(&journey, &matched(Vec::new()), &loaded.gtfs).is_none());
    let built = build_matched_entity(&journey, &matched(vec![2]), &loaded.gtfs).unwrap();
    assert_eq!(built.entity.trip_update.stop_time_update[0].stop_id, "IDFM:3");
    assert_eq!(built.entity.trip_update.trip.start_date, None);
}

#[test]
fn an_extra_journey_is_added_under_a_name_of_its_own() {
    let loaded = loaded();
    let extra = journey(
        Some("RATP:VJ::x/1"),
        LINE,
        vec![
            estimated_call("Q:404:", None, None),
            estimated_call("Q:2:", None, Some(&at(8, 0))),
        ],
    );
    let entity =
        build_extra_journey_entity(&extra, &loaded.gtfs, &loaded.stop_alias_index).unwrap();
    assert_eq!(entity.id, "IDFM:EXTRA:RATP-VJ--x-1");
    assert_eq!(entity.trip_update.trip.trip_id, entity.id);
    assert_eq!(entity.trip_update.trip.route_id, Some("IDFM:L".to_string()));
    assert!(entity.trip_update.trip.added);
    assert_eq!(entity.trip_update.stop_time_update.len(), 1);
    assert_eq!(entity.trip_update.stop_time_update[0].departure, Some(NOW));

    let nameless = journey(None, LINE, vec![estimated_call("Q:2:", None, None)]);
    let entity =
        build_extra_journey_entity(&nameless, &loaded.gtfs, &loaded.stop_alias_index).unwrap();
    assert_eq!(entity.id, "IDFM:EXTRA:unknown");

    let elsewhere = journey(None, Some("STIF:Line::X:"), vec![estimated_call("Q:2:", None, None)]);
    assert!(build_extra_journey_entity(&elsewhere, &loaded.gtfs, &loaded.stop_alias_index).is_none());
    let nowhere = journey(None, LINE, vec![estimated_call("Q:404:", None, None)]);
    assert!(build_extra_journey_entity(&nowhere, &loaded.gtfs, &loaded.stop_alias_index).is_none());
}

fn entity(id: &str, trip_id: &str) -> FeedEntity {
    FeedEntity {
        id: id.to_string(),
        trip_update: TripUpdate {
            trip: TripDescriptor {
                trip_id: trip_id.to_string(),
                start_date: None,
                route_id: None,
                added: false,
            },
            stop_time_update: Vec::new(),
        },
    }
}

#[test]
fn merging_leaves_out_known_trips_and_identifiers() {
    let mut builder = FeedBuilder::new();
    builder.append(vec![entity("a", "t1"), entity("a", "t1")]);
    builder.merge(vec![entity("b", "t1"), entity("a", "t2"), entity("c", "t3"), entity("d", "t3")]);
    let ids = builder.finish().into_iter().map(|entity| entity.id).collect::<Vec<_>>();
    assert_eq!(ids, ["a", "a", "c"]);
}
