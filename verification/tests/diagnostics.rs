use idfm_realtime::matching_diagnostics::{
    collapse_consecutive_calls, diagnose_stop_alignment, longest_common_subsequence_alignment,
    StopAlignmentFailureKind,
};
use idfm_realtime::stops::StopMatchMode;
use idfm_realtime::table::Table;

fn self_canonical(ids: &[&str]) -> Table<String> {
    let mut table = Table::new();
    for id in ids {
        table.insert((*id).to_string(), (*id).to_string());
    }
    table
}

fn owned(ids: &[&str]) -> Vec<String> {
    ids.iter().map(|id| (*id).to_string()).collect()
}

#[test]
fn classifies_unknown_siri_stop_ids() {
    let observed = owned(&["A", "unknown", "C"]);
    let pattern = owned(&["A", "B", "C"]);
    let canonical = self_canonical(&["A", "B", "C"]);
    let diagnostics = diagnose_stop_alignment(
        &observed,
        &[pattern.as_slice()],
        &[pattern.as_slice()],
        &canonical,
        false,
    );

    assert_eq!(diagnostics.kind, StopAlignmentFailureKind::UnknownSiriStopIds);
    assert_eq!(diagnostics.unknown_stop_ids, vec!["unknown"]);
    assert_eq!(diagnostics.best_parent_matched_calls, 2);
}

#[test]
fn classifies_consecutive_duplicate_calls_when_collapsing_fixes_alignment() {
    let observed = owned(&["A", "B", "B", "C"]);
    let pattern = owned(&["A", "B", "C"]);
    let canonical = self_canonical(&["A", "B", "C"]);
    let diagnostics = diagnose_stop_alignment(
        &observed,
        &[pattern.as_slice()],
        &[pattern.as_slice()],
        &canonical,
        false,
    );

    assert_eq!(diagnostics.kind, StopAlignmentFailureKind::ConsecutiveDuplicateCalls);
    assert_eq!(diagnostics.consecutive_duplicate_count, 1);
    assert!(diagnostics.collapsed_duplicate_alignment_exists);
}

#[test]
fn classifies_destination_filter_mismatch() {
    let observed = owned(&["A", "B", "C"]);
    let filtered_pattern = owned(&["A", "X", "C"]);
    let matching_pattern = owned(&["A", "B", "C"]);
    let canonical = self_canonical(&["A", "B", "C", "X"]);
    let diagnostics = diagnose_stop_alignment(
        &observed,
        &[filtered_pattern.as_slice()],
        &[filtered_pattern.as_slice(), matching_pattern.as_slice()],
        &canonical,
        true,
    );

    assert_eq!(diagnostics.kind, StopAlignmentFailureKind::DestinationFilterMismatch);
    assert!(diagnostics.match_exists_without_destination_filter);
}

#[test]
fn classifies_known_stops_in_the_wrong_order() {
    let observed = owned(&["A", "C", "B"]);
    let pattern = owned(&["A", "B", "C"]);
    let canonical = self_canonical(&["A", "B", "C"]);
    let diagnostics = diagnose_stop_alignment(
        &observed,
        &[pattern.as_slice()],
        &[pattern.as_slice()],
        &canonical,
        false,
    );

    assert_eq!(diagnostics.kind, StopAlignmentFailureKind::AllStopsKnownButWrongOrder);
    assert!(diagnostics.all_stops_known_in_one_pattern);
}

#[test]
fn classifies_ninety_percent_partial_alignment() {
    let observed = owned(&["A", "B", "C", "D", "E", "F", "G", "H", "I", "J"]);
    let pattern = owned(&["A", "B", "C", "D", "E", "F", "G", "H", "I"]);
    let canonical = self_canonical(&["A", "B", "C", "D", "E", "F", "G", "H", "I", "J"]);
    let diagnostics = diagnose_stop_alignment(
        &observed,
        &[pattern.as_slice()],
        &[pattern.as_slice()],
        &canonical,
        false,
    );

    assert_eq!(diagnostics.kind, StopAlignmentFailureKind::PartialAlignment90Percent);
    assert_eq!(diagnostics.best_parent_match_percent, 90);
    assert_eq!(diagnostics.first_unmatched_call_index, Some(9));
}

#[test]
fn classifies_lesser_partial_alignment_and_none() {
    let pattern = owned(&["A", "B", "C"]);
    let canonical = self_canonical(&["A", "B", "C", "X", "Y", "Z"]);
    let half = diagnose_stop_alignment(
        &owned(&["X", "B", "Y", "C"]),
        &[pattern.as_slice()],
        &[pattern.as_slice()],
        &canonical,
        false,
    );
    assert_eq!(half.kind, StopAlignmentFailureKind::PartialAlignmentBelow90Percent);
    assert_eq!(half.best_exact_matched_calls, 2);
    assert_eq!(half.best_parent_match_percent, 50);
    assert_eq!(half.first_unmatched_call_index, Some(0));

    let none = diagnose_stop_alignment(
        &owned(&["X", "Y", "Z"]),
        &[pattern.as_slice()],
        &[pattern.as_slice()],
        &canonical,
        false,
    );
    assert_eq!(none.kind, StopAlignmentFailureKind::NoStopAlignment);
    assert_eq!(none.best_pattern_call_count, 3);
    assert_eq!(none.best_parent_match_percent, 0);
}

#[test]
fn no_patterns_leave_nothing_matched() {
    let none: [&[String]; 0] = [];
    let diagnostics =
        diagnose_stop_alignment(&owned(&["A"]), &none, &none, &self_canonical(&["A"]), false);
    assert_eq!(diagnostics.kind, StopAlignmentFailureKind::NoStopAlignment);
    assert_eq!(diagnostics.best_pattern_call_count, 0);
    assert_eq!(diagnostics.first_unmatched_call_index, None);
}

#[test]
fn unknown_stops_are_sorted_and_named_once() {
    let pattern = owned(&["A"]);
    let diagnostics = diagnose_stop_alignment(
        &owned(&["z", "A", "b", "z"]),
        &[pattern.as_slice()],
        &[pattern.as_slice()],
        &self_canonical(&["A"]),
        false,
    );
    assert_eq!(diagnostics.unknown_stop_ids, owned(&["b", "z"]));
    assert_eq!(diagnostics.observed_call_count, 4);
}

#[test]
fn the_longest_partial_alignment_skips_calls_and_stops() {
    let at = longest_common_subsequence_alignment(
        &owned(&["A", "B", "C", "D"]),
        &owned(&["B", "X", "D"]),
        &self_canonical(&[]),
        StopMatchMode::Exact,
    );
    assert_eq!(at, vec![Some(1), None, Some(3)]);
}

#[test]
fn repeated_calls_collapse_by_station() {
    let mut stations = Table::new();
    stations.insert("a1".to_string(), "a".to_string());
    stations.insert("a2".to_string(), "a".to_string());
    let kept = collapse_consecutive_calls(&owned(&["a1", "a2", "b", "a2"]), &stations);
    assert_eq!(kept, owned(&["a1", "b", "a2"]));
}

#[test]
fn failure_kinds_have_names() {
    assert_eq!(StopAlignmentFailureKind::UnknownSiriStopIds.as_str(), "unknown_siri_stop_ids");
    assert_eq!(
        StopAlignmentFailureKind::ConsecutiveDuplicateCalls.as_str(),
        "consecutive_duplicate_calls"
    );
    assert_eq!(
        StopAlignmentFailureKind::DestinationFilterMismatch.as_str(),
        "destination_filter_mismatch"
    );
    assert_eq!(
        StopAlignmentFailureKind::AllStopsKnownButWrongOrder.as_str(),
        "all_stops_known_but_wrong_order"
    );
    assert_eq!(
        StopAlignmentFailureKind::PartialAlignment90Percent.as_str(),
        "partial_alignment_90_percent"
    );
    assert_eq!(
        StopAlignmentFailureKind::PartialAlignmentBelow90Percent.as_str(),
        "partial_alignment_below_90_percent"
    );
    assert_eq!(StopAlignmentFailureKind::NoStopAlignment.as_str(), "no_stop_alignment");
}
