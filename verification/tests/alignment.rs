use idfm_realtime::gtfs::{StopTime, Trip};
use idfm_realtime::scoring::{find_best_alignment, ObservedCall};
use idfm_realtime::stops::StopMatchMode;
use idfm_realtime::table::Table;

fn make_dummy_trip(stop_ids: &[&str]) -> Trip {
    Trip {
        id: "dummy".to_string(),
        service_id: "dummy".to_string(),
        route_id: "dummy".to_string(),
        stop_times: stop_ids
            .iter()
            .map(|stop_id| StopTime {
                stop_id: (*stop_id).to_string(),
                arrival_time: None,
                departure_time: None,
            })
            .collect(),
        trip_short_name: None,
    }
}

fn exact_alignments(stop_ids: &[&str], observed_calls: &Vec<ObservedCall>) -> Vec<Vec<usize>> {
    find_best_alignment(
        &make_dummy_trip(stop_ids),
        observed_calls,
        None,
        None,
        &Table::new(),
        StopMatchMode::Exact,
    )
    .map(|score| vec![score.stop_indices])
    .unwrap_or_default()
}

fn parent_alignments(
    stop_ids: &[&str],
    observed_calls: &Vec<ObservedCall>,
    canonical: &Table<String>,
) -> Vec<Vec<usize>> {
    find_best_alignment(
        &make_dummy_trip(stop_ids),
        observed_calls,
        None,
        None,
        canonical,
        StopMatchMode::ParentStation,
    )
    .map(|score| vec![score.stop_indices])
    .unwrap_or_default()
}

fn observed_call(stop_id: &str) -> ObservedCall {
    ObservedCall {
        stop_aliases: vec![stop_id.to_string()],
        aimed_arrival: None,
        aimed_departure: None,
        expected_arrival: Some(0),
        expected_departure: None,
    }
}

#[test]
fn aligns_omitted_calls_as_an_ordered_subsequence() {
    let stop_ids = ["A", "B", "C", "D", "E", "F"];
    let observed_calls = vec![observed_call("B"), observed_call("D"), observed_call("F")];

    assert_eq!(exact_alignments(&stop_ids, &observed_calls), vec![vec![1, 3, 5]]);
}

#[test]
fn keeps_all_ordered_alignments_for_repeated_stops() {
    let stop_ids = ["A", "B", "C", "B", "D"];
    let observed_calls = vec![observed_call("B"), observed_call("D")];

    assert_eq!(exact_alignments(&stop_ids, &observed_calls), vec![vec![1, 4]]);
}

#[test]
fn rejects_calls_whose_order_does_not_match_the_trip() {
    let stop_ids = ["A", "B", "C", "D"];
    let observed_calls = vec![observed_call("D"), observed_call("B")];

    assert!(exact_alignments(&stop_ids, &observed_calls).is_empty());
}

#[test]
fn parent_station_alignment_matches_sibling_platforms() {
    let stop_ids = ["platform-a", "platform-c"];
    let observed_calls = vec![observed_call("platform-b"), observed_call("platform-c")];
    let mut canonical = Table::new();
    canonical.insert("platform-a".to_string(), "station".to_string());
    canonical.insert("platform-b".to_string(), "station".to_string());
    canonical.insert("platform-c".to_string(), "platform-c".to_string());

    assert!(exact_alignments(&stop_ids, &observed_calls).is_empty());
    assert_eq!(
        parent_alignments(&stop_ids, &observed_calls, &canonical),
        vec![vec![0, 1]]
    );
}

#[test]
fn aimed_times_take_precedence_over_expected_times() {
    let call = ObservedCall {
        stop_aliases: vec!["B".to_string()],
        aimed_arrival: Some(100),
        aimed_departure: Some(110),
        expected_arrival: Some(130),
        expected_departure: Some(140),
    };

    assert_eq!(call.matching_arrival(), Some(100));
    assert_eq!(call.matching_departure(), Some(110));
}

/// Of the two ways to put a call at `B` and one at `D`, the one with the lesser sum is kept.
#[test]
fn a_timed_alignment_has_the_least_sum() {
    let mut trip = make_dummy_trip(&["A", "B", "C", "B", "D"]);
    for (place, stop_time) in trip.stop_times.iter_mut().enumerate() {
        stop_time.arrival_time = Some(600 * place as u32);
    }
    // 1 January 1970 in UTC, so that seconds of the day are timestamps.
    let at = |first: i64| {
        let mut calls = vec![observed_call("B"), observed_call("D")];
        calls[0].expected_arrival = Some(first);
        calls[1].expected_arrival = Some(2400);
        find_best_alignment(
            &trip,
            &calls,
            Some(719_163),
            Some("UTC"),
            &Table::new(),
            StopMatchMode::Exact,
        )
        .unwrap()
    };
    let early = at(700);
    assert_eq!(early.stop_indices, vec![1, 4]);
    assert_eq!(early.mean_abs_difference_seconds, 50);
    assert_eq!(early.comparisons, 2);
    let late = at(1700);
    assert_eq!(late.stop_indices, vec![3, 4]);
    assert_eq!(late.mean_abs_difference_seconds, 50);
    assert_eq!(late.max_abs_difference_seconds, 100);
}
