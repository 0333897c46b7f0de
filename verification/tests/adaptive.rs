use idfm_realtime::adaptive_matching::{
    destination_matches, is_point_observation_operator, match_cached_assignment, match_journey,
    median, time_window, AdaptiveScore, DestinationMode, StopAliasIndex, NO_STOP,
};
use idfm_realtime::gtfs::{Calendar, Gtfs, Route, Stop, StopTime, Trip};
use idfm_realtime::siri_models::{
    EstimatedCall, EstimatedCalls, EstimatedVehicleJourney, ValueWrapper,
};

const MONDAY: i32 = 739_810;

fn wrap(value: &str) -> Option<ValueWrapper> {
    Some(ValueWrapper {
        value: Some(value.to_string()),
    })
}

fn call(stop: &str, expected: Option<&str>, aimed: Option<&str>) -> EstimatedCall {
    EstimatedCall {
        stop_point_ref: wrap(stop),
        aimed_arrival_time: aimed.map(str::to_string),
        aimed_departure_time: None,
        expected_arrival_time: None,
        expected_departure_time: expected.map(str::to_string),
        arrival_status: None,
        departure_status: None,
        arrival_platform_name: None,
        departure_platform_name: None,
    }
}

fn journey(operator: Option<&str>, destination: Option<&str>, calls: Vec<EstimatedCall>) -> EstimatedVehicleJourney {
    EstimatedVehicleJourney {
        dated_vehicle_journey_ref: None,
        line_ref: wrap("STIF:Line::L:"),
        operator_ref: operator.and_then(wrap),
        direction_ref: None,
        direction_name: None,
        destination_ref: destination.and_then(wrap),
        journey_note: None,
        estimated_calls: Some(EstimatedCalls {
            estimated_call: calls,
        }),
    }
}

fn trip(gtfs: &mut Gtfs, id: &str, stops: &[(&str, u32)]) {
    gtfs.trips.insert(
        id.to_string(),
        Trip {
            id: id.to_string(),
            service_id: "daily".to_string(),
            route_id: "IDFM:L".to_string(),
            stop_times: stops
                .iter()
                .map(|(stop_id, seconds)| StopTime {
                    stop_id: (*stop_id).to_string(),
                    arrival_time: None,
                    departure_time: Some(*seconds),
                })
                .collect(),
            trip_short_name: None,
        },
    );
}

fn schedule() -> Gtfs {
    let mut gtfs = Gtfs::new();
    for (id, parent) in [("IDFM:1", None), ("IDFM:2", None), ("IDFM:3", Some("IDFM:S")), ("IDFM:33", Some("IDFM:S"))] {
        gtfs.stops.insert(
            id.to_string(),
            Stop {
                parent_station: parent.map(str::to_string),
            },
        );
    }
    let eight = 8 * 3600;
    trip(&mut gtfs, "T:1", &[("IDFM:1", eight), ("IDFM:2", eight + 600), ("IDFM:3", eight + 1200)]);
    trip(&mut gtfs, "T:2", &[("IDFM:3", eight), ("IDFM:2", eight + 600), ("IDFM:1", eight + 1200)]);
    gtfs.calendar.insert(
        "daily".to_string(),
        Calendar {
            start_date: MONDAY,
            end_date: MONDAY + 10,
            monday: true,
            tuesday: true,
            wednesday: true,
            thursday: true,
            friday: true,
            saturday: true,
            sunday: true,
        },
    );
    gtfs
}

fn at(minute: u32) -> String {
    format!("2026-07-13T08:{minute:02}:00+02:00")
}

#[test]
fn identifies_point_observation_operators() {
    assert!(is_point_observation_operator("RATP-SIV:Operator:foo"));
    assert!(is_point_observation_operator("MeC_Bus_PC:Operator:foo"));
    assert!(!is_point_observation_operator("SNCF:Operator:foo"));
}

#[test]
fn route_windows_are_mode_specific() {
    assert_eq!(time_window(Some("Subway"), false), (-300, 900));
    assert_eq!(time_window(Some("Bus"), false), (-300, 1800));
    assert_eq!(time_window(Some("Rail"), false), (-300, 1200));
}

#[test]
fn windows_of_trams_of_unknown_routes_and_of_points() {
    assert_eq!(time_window(Some("Tramway"), false), (-300, 900));
    assert_eq!(time_window(Some("Metro"), false), (-300, 900));
    assert_eq!(time_window(Some("Tram"), false), (-300, 900));
    assert_eq!(time_window(None, false), (-300, 1200));
    assert_eq!(time_window(Some("Bus"), true), (-1200, 1800));
}

#[test]
fn calls_out_of_order_are_put_at_stops_by_time() {
    let gtfs = schedule();
    let aliases = StopAliasIndex::build(&gtfs);
    let found = match_journey(
        &journey(
            None,
            None,
            vec![
                call("Q:2:", Some(&at(11)), None),
                call("Q:404:", Some(&at(11)), None),
                call("Q:1:", None, Some(&at(2))),
                call("Q:33:", Some("soon"), Some(&at(21))),
            ],
        ),
        &gtfs,
        &aliases,
    )
    .unwrap();
    assert_eq!(found.trip_id, "T:1");
    assert_eq!(found.service_date, Some(MONDAY));
    assert_eq!(found.stop_indices, vec![1, NO_STOP, 0, 2]);
    assert_eq!(found.mean_abs_difference_seconds, Some(80));
    assert!(found.used_parent_station_match);
}

#[test]
fn the_order_of_the_calls_does_not_matter() {
    let gtfs = schedule();
    let aliases = StopAliasIndex::build(&gtfs);
    let calls = [
        call("Q:2:", Some(&at(11)), None),
        call("Q:404:", Some(&at(11)), None),
        call("Q:1:", None, Some(&at(2))),
        call("Q:33:", Some(&at(21)), None),
    ];
    for operator in [None, Some("RATP-SIV:Operator:x")] {
        let in_order = |order: [usize; 4]| {
            let list = order.iter().map(|place| calls[*place].clone()).collect();
            match_journey(&journey(operator, None, list), &gtfs, &aliases).unwrap()
        };
        let first = in_order([0, 1, 2, 3]);
        assert_eq!(first.stop_indices, vec![1, NO_STOP, 0, 2]);
        for order in [[2, 0, 3, 1], [3, 2, 1, 0], [1, 3, 0, 2]] {
            let other = in_order(order);
            assert_eq!(other.trip_id, first.trip_id);
            assert_eq!(other.service_date, first.service_date);
            assert_eq!(other.mean_abs_difference_seconds, first.mean_abs_difference_seconds);
            assert_eq!(other.used_parent_station_match, first.used_parent_station_match);
            for (i, place) in order.iter().enumerate() {
                assert_eq!(other.stop_indices[i], first.stop_indices[*place]);
            }
        }
    }
}

#[test]
fn one_call_is_too_few_unless_it_is_a_point() {
    let gtfs = schedule();
    let aliases = StopAliasIndex::build(&gtfs);
    let one = |operator| journey(operator, None, vec![call("Q:1:", Some(&at(1)), None)]);
    assert!(match_journey(&one(None), &gtfs, &aliases).is_none());
    let found = match_journey(&one(Some("RATP-SIV:Operator:x")), &gtfs, &aliases).unwrap();
    assert_eq!(found.trip_id, "T:1");
}

#[test]
fn points_whose_delays_differ_too_much_are_not_one_trip() {
    let gtfs = schedule();
    let aliases = StopAliasIndex::build(&gtfs);
    let points = |a: u32, b: u32, c: u32| {
        journey(
            Some("MeC_Bus_PC:Operator:x"),
            Some("Q:3:"),
            vec![
                call("Q:1:", Some(&at(a)), None),
                call("Q:2:", Some(&at(b)), None),
                call("Q:3:", Some(&at(c)), None),
            ],
        )
    };
    assert_eq!(match_journey(&points(5, 15, 25), &gtfs, &aliases).unwrap().trip_id, "T:1");
    assert!(match_journey(&points(0, 25, 50), &gtfs, &aliases).is_none());
}

#[test]
fn the_destination_is_sought_at_the_end_then_on_the_way() {
    let gtfs = schedule();
    let trip = gtfs.trips.get("T:1").unwrap();
    let to = |id: &str| vec![id.to_string()];
    assert!(destination_matches(trip, &to("IDFM:33"), &gtfs, DestinationMode::Terminus));
    assert!(!destination_matches(trip, &to("IDFM:2"), &gtfs, DestinationMode::Terminus));
    assert!(destination_matches(trip, &to("IDFM:2"), &gtfs, DestinationMode::AnyStop));
    assert!(!destination_matches(trip, &to("IDFM:9"), &gtfs, DestinationMode::AnyStop));
    assert!(destination_matches(trip, &to("IDFM:9"), &gtfs, DestinationMode::Ignored));
    assert!(destination_matches(trip, &Vec::new(), &gtfs, DestinationMode::Terminus));
}

#[test]
fn a_remembered_trip_is_taken_only_if_near() {
    let mut gtfs = schedule();
    gtfs.routes.insert(
        "IDFM:L".to_string(),
        Route {
            agency_id: None,
            route_type: "Bus".to_string(),
        },
    );
    let aliases = StopAliasIndex::build(&gtfs);
    let late = |minutes: u32| {
        journey(
            None,
            None,
            vec![
                call("Q:1:", Some(&at(minutes)), None),
                call("Q:2:", Some(&at(10 + minutes)), None),
            ],
        )
    };
    let near = match_cached_assignment(&late(10), &gtfs, &aliases, "T:1").unwrap();
    assert_eq!(near.mean_abs_difference_seconds, Some(600));
    assert!(match_cached_assignment(&late(11), &gtfs, &aliases, "T:1").is_none());
    assert!(match_cached_assignment(&late(10), &gtfs, &aliases, "gone").is_none());
    assert!(match_cached_assignment(&journey(None, None, Vec::new()), &gtfs, &aliases, "T:1").is_none());
}

#[test]
fn aliases_are_sorted() {
    let mut gtfs = Gtfs::new();
    for id in ["b:7", "a:7", "a:8"] {
        gtfs.stops.insert(id.to_string(), Stop { parent_station: None });
    }
    let aliases = StopAliasIndex::build(&gtfs);
    assert_eq!(aliases.resolve("Q:7:"), ["a:7", "b:7"]);
    assert_eq!(aliases.first("Q:7:"), Some("a:7".to_string()));
    assert_eq!(aliases.first("Q:9:"), None);
    assert!(aliases.resolve("::").is_empty());
}

#[test]
fn the_median_is_the_upper_middle() {
    assert_eq!(median(&vec![5, 1, 9]), 5);
    assert_eq!(median(&vec![4, 1, 3, 2]), 3);
    assert_eq!(median(&vec![-7]), -7);
}

#[test]
fn scores_prefer_more_calls_then_lesser_differences() {
    let score = |matched_calls, mean_difference, max_difference, total_difference| AdaptiveScore {
        trip_id: String::new(),
        service_date: MONDAY,
        matched_calls,
        total_difference,
        mean_difference,
        max_difference,
        stop_indices: Vec::new(),
        used_parent_station_match: false,
    };
    assert!(score(3, 9, 9, 27).is_better_than(&score(2, 1, 1, 2)));
    assert!(score(2, 1, 9, 3).is_better_than(&score(2, 2, 2, 4)));
    assert!(score(2, 1, 1, 3).is_better_than(&score(2, 1, 2, 2)));
    assert!(score(2, 1, 1, 2).is_better_than(&score(2, 1, 1, 3)));
    assert!(!score(2, 1, 1, 2).is_better_than(&score(2, 1, 1, 2)));
}
