//! Why the calls of a journey have no place on any pattern of stops of a line.

use crate::alignment;
use crate::clock;
use crate::order::{self, sorted_unique};
use crate::stops::{self, canonical_stop_id, stops_match, StopMatchMode};
use crate::table::Table;
use crate::text;
use vstd::prelude::*;

verus! {

#[derive(Debug, Clone, Copy, PartialEq, Eq, Structural)]
pub enum StopAlignmentFailureKind {
    UnknownSiriStopIds,
    ConsecutiveDuplicateCalls,
    DestinationFilterMismatch,
    AllStopsKnownButWrongOrder,
    PartialAlignment90Percent,
    PartialAlignmentBelow90Percent,
    NoStopAlignment,
}

/// The name of a kind of failure.
pub open spec fn failure_name(kind: StopAlignmentFailureKind) -> Seq<char> {
    match kind {
        StopAlignmentFailureKind::UnknownSiriStopIds => "unknown_siri_stop_ids"@,
        StopAlignmentFailureKind::ConsecutiveDuplicateCalls => "consecutive_duplicate_calls"@,
        StopAlignmentFailureKind::DestinationFilterMismatch => "destination_filter_mismatch"@,
        StopAlignmentFailureKind::AllStopsKnownButWrongOrder => "all_stops_known_but_wrong_order"@,
        StopAlignmentFailureKind::PartialAlignment90Percent => "partial_alignment_90_percent"@,
        StopAlignmentFailureKind::PartialAlignmentBelow90Percent => "partial_alignment_below_90_percent"@,
        StopAlignmentFailureKind::NoStopAlignment => "no_stop_alignment"@,
    }
}

impl StopAlignmentFailureKind {
    /// The name of this kind of failure.
    pub fn as_str(self) -> (r: &'static str)
        ensures
            r@ == failure_name(self),
    {
        match self {
            Self::UnknownSiriStopIds => "unknown_siri_stop_ids",
            Self::ConsecutiveDuplicateCalls => "consecutive_duplicate_calls",
            Self::DestinationFilterMismatch => "destination_filter_mismatch",
            Self::AllStopsKnownButWrongOrder => "all_stops_known_but_wrong_order",
            Self::PartialAlignment90Percent => "partial_alignment_90_percent",
            Self::PartialAlignmentBelow90Percent => "partial_alignment_below_90_percent",
            Self::NoStopAlignment => "no_stop_alignment",
        }
    }
}

/// What is known of a failed alignment.
#[derive(Debug, Clone)]
pub struct StopAlignmentDiagnostics {
    pub kind: StopAlignmentFailureKind,
    pub observed_call_count: usize,
    /// The observed stops that the schedule does not have, sorted, each once.
    pub unknown_stop_ids: Vec<String>,
    pub best_exact_matched_calls: usize,
    pub best_parent_matched_calls: usize,
    pub best_parent_match_percent: u8,
    pub best_pattern_call_count: usize,
    pub first_unmatched_call_index: Option<usize>,
    pub consecutive_duplicate_count: usize,
    pub collapsed_duplicate_alignment_exists: bool,
    pub match_exists_without_destination_filter: bool,
    pub all_stops_known_in_one_pattern: bool,
}

/// How far the calls follow one pattern.
#[derive(Debug, Clone, Copy)]
pub struct PartialAlignmentSummary {
    pub matched_calls: usize,
    pub pattern_call_count: usize,
    pub first_unmatched_call_index: Option<usize>,
}

/// Which observed call may be at which stop of a pattern.
pub open spec fn may_call(
    pattern: Seq<Seq<char>>,
    observed: Seq<Seq<char>>,
    stations: Map<Seq<char>, String>,
    mode: StopMatchMode,
) -> spec_fn(int, int) -> bool {
    |call: int, stop: int| stops::same_stop(pattern[stop], observed[call], stations, mode)
}

/// The longest partial alignment of the observed calls with a pattern.
pub open spec fn followed(
    pattern: Seq<Seq<char>>,
    observed: Seq<Seq<char>>,
    stations: Map<Seq<char>, String>,
    mode: StopMatchMode,
) -> Seq<Option<usize>> {
    alignment::longest_alignment(
        observed.len() as int,
        pattern.len() as int,
        may_call(pattern, observed, stations, mode),
    )
}

/// The row of lengths of the longest partial alignments that ends each with one stop more.
spec fn is_row(row: Seq<usize>, calls: int, may: spec_fn(int, int) -> bool) -> bool {
    forall|stops: int|
        0 <= stops < row.len() ==> #[trigger] row[stops] == alignment::longest(calls, stops, may)
}

fn longest_rows(
    pattern: &[String],
    observed: &[String],
    stations: &Table<String>,
    mode: StopMatchMode,
) -> (rows: Vec<Vec<usize>>)
    ensures
        rows@.len() == observed@.len() + 1,
        forall|calls: int|
            0 <= calls <= observed@.len() ==> (#[trigger] rows@[calls])@.len() == pattern@.len() + 1
                && is_row(
                rows@[calls]@,
                calls,
                may_call(text::texts(pattern@), text::texts(observed@), stations@, mode),
            ),
{
    let ghost may = may_call(text::texts(pattern@), text::texts(observed@), stations@, mode);
    let mut rows: Vec<Vec<usize>> = Vec::new();
    let mut first: Vec<usize> = Vec::new();
    first.push(0);
    let mut k: usize = 0;
    while k < pattern.len()
        invariant
            k <= pattern@.len(),
            first@.len() == k + 1,
            is_row(first@, 0, may),
        decreases pattern@.len() - k,
    {
        first.push(0);
        k = k + 1;
    }
    rows.push(first);
    let mut calls: usize = 0;
    while calls < observed.len()
        invariant
            calls <= observed@.len(),
            may == may_call(text::texts(pattern@), text::texts(observed@), stations@, mode),
            rows@.len() == calls + 1,
            forall|c: int|
                0 <= c <= calls ==> (#[trigger] rows@[c])@.len() == pattern@.len() + 1 && is_row(
                    rows@[c]@,
                    c,
                    may,
                ),
        decreases observed@.len() - calls,
    {
        let mut row: Vec<usize> = Vec::new();
        row.push(0);
        let mut stop: usize = 0;
        while stop < pattern.len()
            invariant
                calls < observed@.len(),
                stop <= pattern@.len(),
                may == may_call(text::texts(pattern@), text::texts(observed@), stations@, mode),
                rows@.len() == calls + 1,
                rows@[calls as int]@.len() == pattern@.len() + 1,
                is_row(rows@[calls as int]@, calls as int, may),
                row@.len() == stop + 1,
                is_row(row@, calls + 1, may),
            decreases pattern@.len() - stop,
        {
            proof {
                alignment::longest_grows_slowly(calls as int, stop as int, may);
                assert(rows@[calls as int]@[stop as int] == alignment::longest(
                    calls as int,
                    stop as int,
                    may,
                ));
            }
            let length: usize = if stops_match(
                pattern[stop].as_str(),
                observed[calls].as_str(),
                stations,
                mode,
            ) {
                rows[calls][stop] + 1
            } else {
                let without_call: usize = rows[calls][stop + 1];
                let without_stop: usize = row[stop];
                if without_call >= without_stop {
                    without_call
                } else {
                    without_stop
                }
            };
            assert(may(calls as int, stop as int) == stops::same_stop(
                pattern@[stop as int]@,
                observed@[calls as int]@,
                stations@,
                mode,
            ));
            assert(length == alignment::longest(calls + 1, stop + 1, may));
            row.push(length);
            stop = stop + 1;
        }
        rows.push(row);
        calls = calls + 1;
    }
    rows
}

/// The longest partial alignment of the observed calls with a pattern.
pub fn longest_common_subsequence_alignment(
    pattern: &[String],
    observed_stop_ids: &[String],
    canonical_stop_ids: &Table<String>,
    mode: StopMatchMode,
) -> (r: Vec<Option<usize>>)
    ensures
        r@ == followed(
            text::texts(pattern@),
            text::texts(observed_stop_ids@),
            canonical_stop_ids@,
            mode,
        ),
{
    let ghost may = may_call(
        text::texts(pattern@),
        text::texts(observed_stop_ids@),
        canonical_stop_ids@,
        mode,
    );
    let lengths = longest_rows(pattern, observed_stop_ids, canonical_stop_ids, mode);
    let mut found: Vec<Option<usize>> = Vec::new();
    let mut k: usize = 0;
    while k < observed_stop_ids.len()
        invariant
            k <= observed_stop_ids@.len(),
            found@ == Seq::new(k as nat, |i: int| None::<usize>),
        decreases observed_stop_ids@.len() - k,
    {
        found.push(None);
        assert(found@ =~= Seq::new((k + 1) as nat, |i: int| None::<usize>));
        k = k + 1;
    }
    let mut calls = observed_stop_ids.len();
    let mut stops = pattern.len();
    let ghost whole = alignment::longest_alignment(calls as int, stops as int, may);
    proof {
        alignment::longest_alignment_is_longest(calls as int, stops as int, may);
    }
    assert(whole =~= whole + found@.skip(calls as int));
    while calls > 0 && stops > 0
        invariant
            calls <= observed_stop_ids@.len(),
            stops <= pattern@.len(),
            may == may_call(
                text::texts(pattern@),
                text::texts(observed_stop_ids@),
                canonical_stop_ids@,
                mode,
            ),
            lengths@.len() == observed_stop_ids@.len() + 1,
            forall|c: int|
                0 <= c <= observed_stop_ids@.len() ==> (#[trigger] lengths@[c])@.len()
                    == pattern@.len() + 1 && is_row(lengths@[c]@, c, may),
            found@.len() == observed_stop_ids@.len(),
            forall|i: int| 0 <= i < calls ==> found@[i] is None,
            whole == alignment::longest_alignment(calls as int, stops as int, may) + found@.skip(
                calls as int,
            ),
        decreases calls + stops,
    {
        let ghost before = found@;
        proof {
            alignment::longest_alignment_is_longest(calls as int, stops as int, may);
            alignment::longest_alignment_is_longest(calls - 1, stops as int, may);
            alignment::longest_alignment_is_longest(calls - 1, stops - 1, may);
            assert(lengths@[calls as int]@[stops as int] == alignment::longest(
                calls as int,
                stops as int,
                may,
            ));
            assert(lengths@[calls - 1]@[stops - 1] == alignment::longest(
                calls - 1,
                stops - 1,
                may,
            ));
            assert(lengths@[calls - 1]@[stops as int] == alignment::longest(
                calls - 1,
                stops as int,
                may,
            ));
            assert(lengths@[calls as int]@[stops - 1] == alignment::longest(
                calls as int,
                stops - 1,
                may,
            ));
            assert(may(calls - 1, stops - 1) == stops::same_stop(
                pattern@[stops - 1]@,
                observed_stop_ids@[calls - 1]@,
                canonical_stop_ids@,
                mode,
            ));
        }
        if stops_match(
            pattern[stops - 1].as_str(),
            observed_stop_ids[calls - 1].as_str(),
            canonical_stop_ids,
            mode,
        ) {
            found[calls - 1] = Some(stops - 1);
            assert(found@.skip(calls - 1) =~= seq![Some((stops - 1) as usize)] + before.skip(
                calls as int,
            ));
            calls = calls - 1;
            stops = stops - 1;
        } else if lengths[calls - 1][stops] >= lengths[calls][stops - 1] {
            assert(found@.skip(calls - 1) =~= seq![None::<usize>] + before.skip(calls as int));
            calls = calls - 1;
        } else {
            stops = stops - 1;
        }
        assert(whole =~= alignment::longest_alignment(calls as int, stops as int, may)
            + found@.skip(calls as int));
    }
    assert(found@ =~= whole);
    found
}

/// How far the observed calls follow one pattern.
pub open spec fn summary_of(
    pattern: Seq<Seq<char>>,
    observed: Seq<Seq<char>>,
    stations: Map<Seq<char>, String>,
    mode: StopMatchMode,
) -> PartialAlignmentSummary {
    let at = followed(pattern, observed, stations, mode);
    PartialAlignmentSummary {
        matched_calls: alignment::matched(at) as usize,
        pattern_call_count: pattern.len() as usize,
        first_unmatched_call_index: alignment::first_left_out(at),
    }
}

/// Whether one pattern is followed better than another: for more calls, or for as many and with
/// more nearly as many stops as there are calls.
pub open spec fn beats(a: PartialAlignmentSummary, b: PartialAlignmentSummary, calls: int) -> bool {
    a.matched_calls > b.matched_calls || (a.matched_calls == b.matched_calls && clock::gap(
        a.pattern_call_count as int,
        calls,
    ) < clock::gap(b.pattern_call_count as int, calls))
}

/// The stops of a list of patterns.
pub open spec fn patterns_of(patterns: Seq<&[String]>) -> Seq<Seq<Seq<char>>> {
    Seq::new(patterns.len(), |i: int| text::texts(patterns[i]@))
}

/// The summaries of the patterns.
pub open spec fn summaries(
    patterns: Seq<Seq<Seq<char>>>,
    observed: Seq<Seq<char>>,
    stations: Map<Seq<char>, String>,
    mode: StopMatchMode,
) -> Seq<PartialAlignmentSummary> {
    Seq::new(
        patterns.len(),
        |i: int| summary_of(patterns[i], observed, stations, mode),
    )
}

/// The first of the summaries that no other beats, that of an empty pattern where there are none.
pub open spec fn best_of(all: Seq<PartialAlignmentSummary>, calls: int) -> PartialAlignmentSummary
    decreases all.len(),
{
    if all.len() == 0 {
        PartialAlignmentSummary {
            matched_calls: 0,
            pattern_call_count: 0,
            first_unmatched_call_index: None,
        }
    } else {
        let best = best_of(all.drop_last(), calls);
        if all.len() == 1 || beats(all.last(), best, calls) {
            all.last()
        } else {
            best
        }
    }
}

/// The law of `best_of`: it is one of the summaries, and none of them beats it.
pub proof fn best_is_not_beaten(all: Seq<PartialAlignmentSummary>, calls: int)
    requires
        all.len() > 0,
    ensures
        all.contains(best_of(all, calls)),
        forall|i: int| 0 <= i < all.len() ==> !beats(#[trigger] all[i], best_of(all, calls), calls),
    decreases all.len(),
{
    let front = all.drop_last();
    if all.len() == 1 {
        assert(all[0] == best_of(all, calls));
    } else {
        best_is_not_beaten(front, calls);
        let k = choose|k: int| 0 <= k < front.len() && front[k] == best_of(front, calls);
        assert(all[k] == front[k]);
        assert(all[all.len() - 1] == all.last());
        assert forall|i: int| 0 <= i < all.len() implies !beats(
            #[trigger] all[i],
            best_of(all, calls),
            calls,
        ) by {
            if i < front.len() {
                assert(all[i] == front[i]);
            }
        }
    }
}

fn absolute_difference(a: usize, b: usize) -> (r: usize)
    ensures
        r == clock::gap(a as int, b as int),
{
    if a < b {
        b - a
    } else {
        a - b
    }
}

proof fn matched_bound(at: Seq<Option<usize>>)
    ensures
        0 <= alignment::matched(at) <= at.len(),
    decreases at.len(),
{
    if at.len() > 0 {
        matched_bound(at.drop_last());
    }
}

fn summarize(at: &Vec<Option<usize>>, stops: usize) -> (r: PartialAlignmentSummary)
    ensures
        r.matched_calls == alignment::matched(at@),
        r.pattern_call_count == stops,
        r.first_unmatched_call_index == alignment::first_left_out(at@),
{
    let mut matched_calls: usize = 0;
    let mut first_unmatched_call_index: Option<usize> = None;
    let mut i: usize = 0;
    while i < at.len()
        invariant
            i <= at@.len(),
            matched_calls == alignment::matched(at@.take(i as int)),
            first_unmatched_call_index == alignment::first_left_out(at@.take(i as int)),
        decreases at@.len() - i,
    {
        assert(at@.take(i + 1).drop_last() =~= at@.take(i as int));
        assert(at@.take(i + 1).last() == at@[i as int]);
        proof {
            matched_bound(at@.take(i as int));
        }
        if at[i].is_some() {
            matched_calls = matched_calls + 1;
        } else if first_unmatched_call_index.is_none() {
            first_unmatched_call_index = Some(i);
        }
        i = i + 1;
    }
    assert(at@.take(i as int) =~= at@);
    PartialAlignmentSummary { matched_calls, pattern_call_count: stops, first_unmatched_call_index }
}

/// The best summary over the patterns.
pub fn best_partial_alignment(
    patterns: &[&[String]],
    observed_stop_ids: &[String],
    canonical_stop_ids: &Table<String>,
    mode: StopMatchMode,
) -> (r: PartialAlignmentSummary)
    ensures
        r == best_of(
            summaries(
                patterns_of(patterns@),
                text::texts(observed_stop_ids@),
                canonical_stop_ids@,
                mode,
            ),
            observed_stop_ids@.len() as int,
        ),
{
    let ghost all = summaries(
        patterns_of(patterns@),
        text::texts(observed_stop_ids@),
        canonical_stop_ids@,
        mode,
    );
    let mut best = PartialAlignmentSummary {
        matched_calls: 0,
        pattern_call_count: 0,
        first_unmatched_call_index: None,
    };
    let calls = observed_stop_ids.len();
    let mut i: usize = 0;
    while i < patterns.len()
        invariant
            i <= patterns@.len(),
            calls == observed_stop_ids@.len(),
            all == summaries(
                patterns_of(patterns@),
                text::texts(observed_stop_ids@),
                canonical_stop_ids@,
                mode,
            ),
            best == best_of(all.take(i as int), calls as int),
        decreases patterns@.len() - i,
    {
        let pattern = patterns[i];
        let at = longest_common_subsequence_alignment(
            pattern,
            observed_stop_ids,
            canonical_stop_ids,
            mode,
        );
        let summary = summarize(&at, pattern.len());
        assert(summary == all[i as int]) by {
            matched_bound(at@);
            alignment::longest_alignment_is_longest(
                observed_stop_ids@.len() as int,
                pattern@.len() as int,
                may_call(
                    text::texts(pattern@),
                    text::texts(observed_stop_ids@),
                    canonical_stop_ids@,
                    mode,
                ),
            );
        }
        assert(all.take(i + 1).drop_last() =~= all.take(i as int));
        if i == 0 || summary.matched_calls > best.matched_calls || (summary.matched_calls
            == best.matched_calls && absolute_difference(summary.pattern_call_count, calls)
            < absolute_difference(best.pattern_call_count, calls)) {
            best = summary;
        }
        i = i + 1;
    }
    assert(all.take(i as int) =~= all);
    best
}

/// Whether the observed calls have an alignment with a pattern.
pub open spec fn fits(
    pattern: Seq<Seq<char>>,
    observed: Seq<Seq<char>>,
    stations: Map<Seq<char>, String>,
    mode: StopMatchMode,
) -> bool {
    alignment::alignable(
        observed.len() as int,
        pattern.len() as int,
        may_call(pattern, observed, stations, mode),
    )
}

/// Whether the observed calls have an alignment with a pattern.
pub fn has_ordered_alignment(
    pattern: &[String],
    observed_stop_ids: &[String],
    canonical_stop_ids: &Table<String>,
    mode: StopMatchMode,
) -> (r: bool)
    ensures
        r == fits(
            text::texts(pattern@),
            text::texts(observed_stop_ids@),
            canonical_stop_ids@,
            mode,
        ),
{
    let ghost may = may_call(
        text::texts(pattern@),
        text::texts(observed_stop_ids@),
        canonical_stop_ids@,
        mode,
    );
    let mut search_from: usize = 0;
    let mut calls: usize = 0;
    assert forall|stops: int| 0 <= stops <= pattern@.len() implies (#[trigger] alignment::alignable(
        0,
        stops,
        may,
    ) <==> stops >= 0) by {
        alignment::nothing_is_alignable(stops, may);
    }
    while calls < observed_stop_ids.len()
        invariant
            calls <= observed_stop_ids@.len(),
            search_from <= pattern@.len(),
            may == may_call(
                text::texts(pattern@),
                text::texts(observed_stop_ids@),
                canonical_stop_ids@,
                mode,
            ),
            forall|stops: int|
                0 <= stops <= pattern@.len() ==> (#[trigger] alignment::alignable(
                    calls as int,
                    stops,
                    may,
                ) <==> stops >= search_from),
        decreases observed_stop_ids@.len() - calls,
    {
        let mut stop = search_from;
        while stop < pattern.len() && !stops_match(
            pattern[stop].as_str(),
            observed_stop_ids[calls].as_str(),
            canonical_stop_ids,
            mode,
        )
            invariant
                search_from <= stop <= pattern@.len(),
                calls < observed_stop_ids@.len(),
                may == may_call(
                    text::texts(pattern@),
                    text::texts(observed_stop_ids@),
                    canonical_stop_ids@,
                    mode,
                ),
                forall|s: int| search_from <= s < stop ==> !#[trigger] may(calls as int, s),
            decreases pattern@.len() - stop,
        {
            assert(!may(calls as int, stop as int));
            stop = stop + 1;
        }
        proof {
            later_call(calls as int, search_from as int, stop as int, pattern@.len() as int, may);
        }
        if stop == pattern.len() {
            proof {
                if alignment::alignable(
                    observed_stop_ids@.len() as int,
                    pattern@.len() as int,
                    may,
                ) {
                    alignment::alignable_is_monotone(
                        observed_stop_ids@.len() as int,
                        calls + 1,
                        pattern@.len() as int,
                        pattern@.len() as int,
                        may,
                    );
                }
            }
            return false;
        }
        search_from = stop + 1;
        calls = calls + 1;
    }
    true
}

/// Where the calls so far end at the earliest with stop `from`, the next call is at the earliest at
/// the first stop from there on that it may be at.
proof fn later_call(calls: int, from: int, stop: int, all: int, may: spec_fn(int, int) -> bool)
    requires
        0 <= calls,
        0 <= from <= stop <= all,
        forall|stops: int|
            0 <= stops <= all ==> (#[trigger] alignment::alignable(calls, stops, may) <==> stops
                >= from),
        forall|s: int| from <= s < stop ==> !#[trigger] may(calls, s),
        stop < all ==> may(calls, stop),
    ensures
        forall|stops: int|
            0 <= stops <= all ==> (#[trigger] alignment::alignable(calls + 1, stops, may)
                <==> stops >= stop + 1),
{
    assert forall|stops: int| 0 <= stops <= all implies (#[trigger] alignment::alignable(
        calls + 1,
        stops,
        may,
    ) <==> stops >= stop + 1) by {
        later_call_at(calls, from, stop, all, stops, may);
    }
}

proof fn later_call_at(
    calls: int,
    from: int,
    stop: int,
    all: int,
    stops: int,
    may: spec_fn(int, int) -> bool,
)
    requires
        0 <= calls,
        0 <= from <= stop <= all,
        0 <= stops <= all,
        forall|stops: int|
            0 <= stops <= all ==> (#[trigger] alignment::alignable(calls, stops, may) <==> stops
                >= from),
        forall|s: int| from <= s < stop ==> !#[trigger] may(calls, s),
        stop < all ==> may(calls, stop),
    ensures
        alignment::alignable(calls + 1, stops, may) <==> stops >= stop + 1,
    decreases stops,
{
    if stops == 0 {
        if alignment::alignable(calls + 1, 0, may) {
            alignment::alignable_needs_stops(calls + 1, 0, may);
        }
    } else {
        later_call_at(calls, from, stop, all, stops - 1, may);
        alignment::alignable_step(calls + 1, stops, may);
        assert(alignment::alignable(calls, stops - 1, may) <==> stops - 1 >= from);
        if from <= stops - 1 < stop {
            assert(!may(calls, stops - 1));
        }
    }
}

/// Whether the observed calls have an alignment with one of the patterns, stop by stop or station
/// by station.
pub open spec fn fits_one(
    patterns: Seq<Seq<Seq<char>>>,
    observed: Seq<Seq<char>>,
    stations: Map<Seq<char>, String>,
) -> bool {
    exists|i: int|
        0 <= i < patterns.len() && (fits(
            #[trigger] patterns[i],
            observed,
            stations,
            StopMatchMode::Exact,
        ) || fits(patterns[i], observed, stations, StopMatchMode::ParentStation))
}

/// Whether the observed calls have an alignment with one of the patterns.
pub fn has_full_alignment(
    patterns: &[&[String]],
    observed_stop_ids: &[String],
    canonical_stop_ids: &Table<String>,
) -> (r: bool)
    ensures
        r == fits_one(patterns_of(patterns@), text::texts(observed_stop_ids@), canonical_stop_ids@),
{
    let mut i: usize = 0;
    while i < patterns.len()
        invariant
            i <= patterns@.len(),
            forall|k: int|
                0 <= k < i ==> !fits(
                    #[trigger] patterns_of(patterns@)[k],
                    text::texts(observed_stop_ids@),
                    canonical_stop_ids@,
                    StopMatchMode::Exact,
                ) && !fits(
                    patterns_of(patterns@)[k],
                    text::texts(observed_stop_ids@),
                    canonical_stop_ids@,
                    StopMatchMode::ParentStation,
                ),
        decreases patterns@.len() - i,
    {
        let pattern = patterns[i];
        if has_ordered_alignment(
            pattern,
            observed_stop_ids,
            canonical_stop_ids,
            StopMatchMode::Exact,
        ) || has_ordered_alignment(
            pattern,
            observed_stop_ids,
            canonical_stop_ids,
            StopMatchMode::ParentStation,
        ) {
            assert(patterns_of(patterns@)[i as int] == text::texts(pattern@));
            return true;
        }
        i = i + 1;
    }
    false
}

/// Whether two stops have the same station.
pub open spec fn same_station(
    left: Seq<char>,
    right: Seq<char>,
    stations: Map<Seq<char>, String>,
) -> bool {
    stops::same_stop(left, right, stations, StopMatchMode::ParentStation)
}

/// How many calls are at the station of the call before them.
pub open spec fn repeats(observed: Seq<Seq<char>>, stations: Map<Seq<char>, String>) -> int
    decreases observed.len(),
{
    if observed.len() < 2 {
        0
    } else {
        repeats(observed.drop_last(), stations) + (if same_station(
            observed[observed.len() - 2],
            observed.last(),
            stations,
        ) {
            1int
        } else {
            0
        })
    }
}

/// The calls without those at the station of the last one kept before them.
pub open spec fn collapsed(
    observed: Seq<Seq<char>>,
    stations: Map<Seq<char>, String>,
) -> Seq<Seq<char>>
    decreases observed.len(),
{
    if observed.len() == 0 {
        seq![]
    } else {
        let kept = collapsed(observed.drop_last(), stations);
        if kept.len() > 0 && same_station(kept.last(), observed.last(), stations) {
            kept
        } else {
            kept.push(observed.last())
        }
    }
}

/// How many calls are at the station of the call before them.
pub fn count_consecutive_duplicates(
    observed_stop_ids: &[String],
    canonical_stop_ids: &Table<String>,
) -> (r: usize)
    ensures
        r == repeats(text::texts(observed_stop_ids@), canonical_stop_ids@),
{
    let ghost observed = text::texts(observed_stop_ids@);
    let mut count: usize = 0;
    let mut i: usize = 1;
    while i < observed_stop_ids.len()
        invariant
            1 <= i,
            observed == text::texts(observed_stop_ids@),
            i <= observed_stop_ids@.len() || observed_stop_ids@.len() == 0,
            count < i,
            observed_stop_ids@.len() == 0 ==> count == 0,
            observed_stop_ids@.len() > 0 ==> count == repeats(
                observed.take(i as int),
                canonical_stop_ids@,
            ),
        decreases observed_stop_ids@.len() - i,
    {
        assert(observed.take(i + 1).drop_last() =~= observed.take(i as int));
        if stops_match(
            observed_stop_ids[i - 1].as_str(),
            observed_stop_ids[i].as_str(),
            canonical_stop_ids,
            StopMatchMode::ParentStation,
        ) {
            count = count + 1;
        }
        i = i + 1;
    }
    proof {
        if observed.len() > 0 {
            assert(observed.take(i as int) =~= observed);
        }
    }
    count
}

/// The calls without those at the station of the last one kept before them.
pub fn collapse_consecutive_calls(
    observed_stop_ids: &[String],
    canonical_stop_ids: &Table<String>,
) -> (r: Vec<String>)
    ensures
        text::texts(r@) == collapsed(text::texts(observed_stop_ids@), canonical_stop_ids@),
{
    let ghost observed = text::texts(observed_stop_ids@);
    let mut kept: Vec<String> = Vec::new();
    let mut i: usize = 0;
    assert(text::texts(kept@) =~= collapsed(observed.take(0), canonical_stop_ids@));
    while i < observed_stop_ids.len()
        invariant
            i <= observed_stop_ids@.len(),
            observed == text::texts(observed_stop_ids@),
            text::texts(kept@) == collapsed(observed.take(i as int), canonical_stop_ids@),
        decreases observed_stop_ids@.len() - i,
    {
        assert(observed.take(i + 1).drop_last() =~= observed.take(i as int));
        let stop_id = &observed_stop_ids[i];
        let repeated = kept.len() > 0 && stops_match(
            kept[kept.len() - 1].as_str(),
            stop_id.as_str(),
            canonical_stop_ids,
            StopMatchMode::ParentStation,
        );
        if !repeated {
            let ghost before = text::texts(kept@);
            kept.push(stop_id.clone());
            assert(text::texts(kept@) =~= before.push(stop_id@));
        }
        i = i + 1;
    }
    assert(observed.take(i as int) =~= observed);
    kept
}

/// The stations of a list of stops.
pub open spec fn stations_of(
    ids: Seq<Seq<char>>,
    stations: Map<Seq<char>, String>,
) -> Seq<Seq<char>> {
    Seq::new(ids.len(), |i: int| stops::station_of(stations, ids[i]))
}

/// Whether a pattern has the station of each call, at least as often as the calls have it.
pub open spec fn has_all_stations(
    pattern: Seq<Seq<char>>,
    observed: Seq<Seq<char>>,
    stations: Map<Seq<char>, String>,
) -> bool {
    stations_of(observed, stations).to_multiset().subset_of(
        stations_of(pattern, stations).to_multiset(),
    )
}

spec fn counted(counts: Map<Seq<char>, usize>, station: Seq<char>) -> int {
    if counts.contains_key(station) {
        counts[station] as int
    } else {
        0
    }
}

fn count_stations(ids: &[String], stations: &Table<String>) -> (r: Table<usize>)
    ensures
        forall|x: Seq<char>| #[trigger]
            counted(r@, x) == stations_of(text::texts(ids@), stations@).to_multiset().count(x),
{
    let ghost all = stations_of(text::texts(ids@), stations@);
    let mut counts: Table<usize> = Table::new();
    let mut i: usize = 0;
    proof {
        all.take(0).to_multiset_ensures();
        assert(all.take(0) =~= Seq::empty());
    }
    while i < ids.len()
        invariant
            i <= ids@.len(),
            all == stations_of(text::texts(ids@), stations@),
            forall|x: Seq<char>| #[trigger]
                counted(counts@, x) == all.take(i as int).to_multiset().count(x),
        decreases ids@.len() - i,
    {
        let station = canonical_stop_id(stations, ids[i].as_str());
        let ghost before = counts@;
        proof {
            all.take(i as int).to_multiset_ensures();
            assert(counted(counts@, station@) == all.take(i as int).to_multiset().count(station@));
            count_bound(all.take(i as int), station@);
            assert(all.take(i + 1) =~= all.take(i as int).push(station@));
        }
        let so_far: usize = match counts.get(station) {
            Some(count) => *count,
            None => 0,
        };
        counts.insert(station.to_owned(), so_far + 1);
        assert forall|x: Seq<char>| #[trigger] counted(counts@, x) == all.take(
            i + 1,
        ).to_multiset().count(x) by {
            assert(counted(before, x) == all.take(i as int).to_multiset().count(x));
        }
        i = i + 1;
    }
    assert(all.take(i as int) =~= all);
    counts
}

proof fn count_bound(s: Seq<Seq<char>>, x: Seq<char>)
    ensures
        s.to_multiset().count(x) <= s.len(),
    decreases s.len(),
{
    s.to_multiset_ensures();
    if s.len() > 0 {
        count_bound(s.drop_last(), x);
        s.drop_last().to_multiset_ensures();
        assert(s =~= s.drop_last().push(s.last()));
    }
}

proof fn prefix_counts_less(s: Seq<Seq<char>>, n: int, x: Seq<char>)
    requires
        0 <= n <= s.len(),
    ensures
        s.take(n).to_multiset().count(x) <= s.to_multiset().count(x),
{
    assert(s =~= s.take(n) + s.skip(n));
    vstd::seq_lib::lemma_multiset_commutative(s.take(n), s.skip(n));
}

/// Whether a pattern has the station of each call, at least as often as the calls have it.
pub fn contains_all_calls_ignoring_order(
    pattern: &[String],
    observed_stop_ids: &[String],
    canonical_stop_ids: &Table<String>,
) -> (r: bool)
    ensures
        r == has_all_stations(
            text::texts(pattern@),
            text::texts(observed_stop_ids@),
            canonical_stop_ids@,
        ),
{
    let mut available = count_stations(pattern, canonical_stop_ids);
    let ghost offered = stations_of(text::texts(pattern@), canonical_stop_ids@);
    let ghost asked = stations_of(text::texts(observed_stop_ids@), canonical_stop_ids@);
    let mut i: usize = 0;
    proof {
        asked.take(0).to_multiset_ensures();
        assert(asked.take(0) =~= Seq::empty());
    }
    while i < observed_stop_ids.len()
        invariant
            i <= observed_stop_ids@.len(),
            offered == stations_of(text::texts(pattern@), canonical_stop_ids@),
            asked == stations_of(text::texts(observed_stop_ids@), canonical_stop_ids@),
            forall|x: Seq<char>| #[trigger]
                counted(available@, x) == offered.to_multiset().count(x) - asked.take(
                    i as int,
                ).to_multiset().count(x),
        decreases observed_stop_ids@.len() - i,
    {
        let station = canonical_stop_id(canonical_stop_ids, observed_stop_ids[i].as_str());
        let ghost before = available@;
        proof {
            asked.take(i as int).to_multiset_ensures();
            assert(asked.take(i + 1) =~= asked.take(i as int).push(station@));
            assert(counted(before, station@) == offered.to_multiset().count(station@) - asked.take(
                i as int,
            ).to_multiset().count(station@));
        }
        let left: usize = match available.get(station) {
            Some(count) => *count,
            None => 0,
        };
        if left == 0 {
            proof {
                prefix_counts_less(asked, i + 1, station@);
                assert(asked.to_multiset().count(station@) > offered.to_multiset().count(station@));
            }
            return false;
        }
        available.insert(station.to_owned(), left - 1);
        assert forall|x: Seq<char>| #[trigger] counted(available@, x)
            == offered.to_multiset().count(x) - asked.take(i + 1).to_multiset().count(x) by {
            assert(counted(before, x) == offered.to_multiset().count(x) - asked.take(
                i as int,
            ).to_multiset().count(x));
        }
        i = i + 1;
    }
    assert(asked.take(i as int) =~= asked);
    assert forall|x: Seq<char>| asked.to_multiset().count(x) <= offered.to_multiset().count(x) by {
        assert(counted(available@, x) == offered.to_multiset().count(x) - asked.to_multiset().count(
            x,
        ));
    }
    true
}

/// The observed stops that have no station.
pub open spec fn unknown(
    observed: Seq<Seq<char>>,
    stations: Map<Seq<char>, String>,
) -> Set<Seq<char>> {
    observed.to_set().filter(|id: Seq<char>| !stations.contains_key(id))
}

/// The observed stops that have no station, sorted, each once.
pub fn find_unknown_stop_ids(
    observed_stop_ids: &[String],
    canonical_stop_ids: &Table<String>,
) -> (r: Vec<String>)
    ensures
        order::strictly_sorted(text::texts(r@)),
        text::texts(r@).to_set() == unknown(
            text::texts(observed_stop_ids@),
            canonical_stop_ids@,
        ),
{
    let ghost observed = text::texts(observed_stop_ids@);
    let mut found: Vec<String> = Vec::new();
    let mut i: usize = 0;
    assert(text::texts(found@).to_set() =~= unknown(observed.take(0), canonical_stop_ids@));
    while i < observed_stop_ids.len()
        invariant
            i <= observed_stop_ids@.len(),
            observed == text::texts(observed_stop_ids@),
            text::texts(found@).to_set() == unknown(observed.take(i as int), canonical_stop_ids@),
        decreases observed_stop_ids@.len() - i,
    {
        let stop_id = &observed_stop_ids[i];
        let ghost before = text::texts(found@);
        proof {
            assert(observed.take(i + 1) =~= observed.take(i as int).push(stop_id@));
            order::push_to_set(observed.take(i as int), stop_id@);
            order::push_to_set(before, stop_id@);
        }
        if !canonical_stop_ids.contains_key(stop_id.as_str()) {
            found.push(stop_id.clone());
            assert(text::texts(found@) =~= before.push(stop_id@));
        }
        assert(text::texts(found@).to_set() =~= unknown(
            observed.take(i + 1),
            canonical_stop_ids@,
        ));
        i = i + 1;
    }
    assert(observed.take(i as int) =~= observed);
    sorted_unique(found)
}

/// A number cut off at the largest machine integer.
pub open spec fn saturated(n: int) -> int {
    if n > usize::MAX {
        usize::MAX as int
    } else {
        n
    }
}

fn saturating_product(a: usize, b: usize) -> (r: usize)
    ensures
        r == saturated(a * b),
{
    match a.checked_mul(b) {
        Some(product) => product,
        None => usize::MAX,
    }
}

/// Whether one of the patterns has the station of each call.
pub open spec fn one_has_all_stations(
    patterns: Seq<Seq<Seq<char>>>,
    observed: Seq<Seq<char>>,
    stations: Map<Seq<char>, String>,
) -> bool {
    exists|i: int|
        0 <= i < patterns.len() && has_all_stations(#[trigger] patterns[i], observed, stations)
}

fn any_contains_all_calls(
    patterns: &[&[String]],
    observed_stop_ids: &[String],
    canonical_stop_ids: &Table<String>,
) -> (r: bool)
    ensures
        r == one_has_all_stations(
            patterns_of(patterns@),
            text::texts(observed_stop_ids@),
            canonical_stop_ids@,
        ),
{
    let mut i: usize = 0;
    while i < patterns.len()
        invariant
            i <= patterns@.len(),
            forall|k: int|
                0 <= k < i ==> !has_all_stations(
                    #[trigger] patterns_of(patterns@)[k],
                    text::texts(observed_stop_ids@),
                    canonical_stop_ids@,
                ),
        decreases patterns@.len() - i,
    {
        let pattern = patterns[i];
        if contains_all_calls_ignoring_order(pattern, observed_stop_ids, canonical_stop_ids) {
            assert(patterns_of(patterns@)[i as int] == text::texts(pattern@));
            return true;
        }
        i = i + 1;
    }
    false
}

/// The share of the calls that are matched, in whole percent.
pub open spec fn match_percent(matched: int, calls: int) -> int {
    if calls == 0 {
        0
    } else {
        let percent = saturated(matched * 100) / calls;
        if percent > 100 {
            100
        } else {
            percent
        }
    }
}

/// The kind of a failure, by what was found.
pub open spec fn failure_kind(
    fits_without_filter: bool,
    fits_collapsed: bool,
    some_unknown: bool,
    all_known_in_one: bool,
    matched: int,
    calls: int,
) -> StopAlignmentFailureKind {
    if fits_without_filter {
        StopAlignmentFailureKind::DestinationFilterMismatch
    } else if fits_collapsed {
        StopAlignmentFailureKind::ConsecutiveDuplicateCalls
    } else if some_unknown {
        StopAlignmentFailureKind::UnknownSiriStopIds
    } else if all_known_in_one {
        StopAlignmentFailureKind::AllStopsKnownButWrongOrder
    } else if matched > 0 && saturated(matched * 10) >= saturated(calls * 9) {
        StopAlignmentFailureKind::PartialAlignment90Percent
    } else if matched > 0 {
        StopAlignmentFailureKind::PartialAlignmentBelow90Percent
    } else {
        StopAlignmentFailureKind::NoStopAlignment
    }
}

/// Whether `d` tells what is known of the observed calls, the patterns that they were held against
/// and all patterns.
pub open spec fn is_diagnosis(
    d: StopAlignmentDiagnostics,
    observed: Seq<Seq<char>>,
    candidates: Seq<Seq<Seq<char>>>,
    all: Seq<Seq<Seq<char>>>,
    stations: Map<Seq<char>, String>,
    filtered: bool,
) -> bool {
    let calls = observed.len() as int;
    let exact = best_of(summaries(candidates, observed, stations, StopMatchMode::Exact), calls);
    let parent = best_of(
        summaries(candidates, observed, stations, StopMatchMode::ParentStation),
        calls,
    );
    &&& d.observed_call_count == calls
    &&& order::strictly_sorted(text::texts(d.unknown_stop_ids@))
    &&& text::texts(d.unknown_stop_ids@).to_set() == unknown(observed, stations)
    &&& d.best_exact_matched_calls == exact.matched_calls
    &&& d.best_parent_matched_calls == parent.matched_calls
    &&& d.best_parent_match_percent == match_percent(parent.matched_calls as int, calls)
    &&& d.best_pattern_call_count == parent.pattern_call_count
    &&& d.first_unmatched_call_index == parent.first_unmatched_call_index
    &&& d.consecutive_duplicate_count == repeats(observed, stations)
    &&& d.collapsed_duplicate_alignment_exists <==> repeats(observed, stations) > 0 && fits_one(
        candidates,
        collapsed(observed, stations),
        stations,
    )
    &&& d.match_exists_without_destination_filter <==> filtered && !fits_one(
        candidates,
        observed,
        stations,
    ) && fits_one(all, observed, stations)
    &&& d.all_stops_known_in_one_pattern <==> d.unknown_stop_ids@.len() == 0
        && one_has_all_stations(candidates, observed, stations)
    &&& d.kind == failure_kind(
        d.match_exists_without_destination_filter,
        d.collapsed_duplicate_alignment_exists,
        d.unknown_stop_ids@.len() > 0,
        d.all_stops_known_in_one_pattern,
        parent.matched_calls as int,
        calls,
    )
}

/// The kind of failure of the observed calls.
pub open spec fn kind_of(
    observed: Seq<Seq<char>>,
    candidates: Seq<Seq<Seq<char>>>,
    all: Seq<Seq<Seq<char>>>,
    stations: Map<Seq<char>, String>,
    filtered: bool,
) -> StopAlignmentFailureKind {
    let calls = observed.len() as int;
    let parent = best_of(
        summaries(candidates, observed, stations, StopMatchMode::ParentStation),
        calls,
    );
    let some_unknown = exists|id: Seq<char>| unknown(observed, stations).contains(id);
    failure_kind(
        filtered && !fits_one(candidates, observed, stations) && fits_one(all, observed, stations),
        repeats(observed, stations) > 0 && fits_one(
            candidates,
            collapsed(observed, stations),
            stations,
        ),
        some_unknown,
        !some_unknown && one_has_all_stations(candidates, observed, stations),
        parent.matched_calls as int,
        calls,
    )
}

/// The law of diagnoses: the kind of one follows from the calls and the patterns.
pub proof fn diagnosis_has_its_kind(
    d: StopAlignmentDiagnostics,
    observed: Seq<Seq<char>>,
    candidates: Seq<Seq<Seq<char>>>,
    all: Seq<Seq<Seq<char>>>,
    stations: Map<Seq<char>, String>,
    filtered: bool,
)
    requires
        is_diagnosis(d, observed, candidates, all, stations, filtered),
    ensures
        d.kind == kind_of(observed, candidates, all, stations, filtered),
{
    let found = text::texts(d.unknown_stop_ids@);
    if found.len() > 0 {
        assert(found.contains(found[0]));
        assert(found.to_set().contains(found[0]));
        assert(unknown(observed, stations).contains(found[0]));
    } else {
        assert forall|id: Seq<char>| !unknown(observed, stations).contains(id) by {
            assert(!found.to_set().contains(id));
        }
    }
}

/// What is known of calls that have no alignment with the candidate patterns.
pub fn diagnose_stop_alignment(
    observed_stop_ids: &[String],
    candidate_patterns: &[&[String]],
    all_patterns: &[&[String]],
    canonical_stop_ids: &Table<String>,
    destination_filter_applied: bool,
) -> (r: StopAlignmentDiagnostics)
    ensures
        is_diagnosis(
            r,
            text::texts(observed_stop_ids@),
            patterns_of(candidate_patterns@),
            patterns_of(all_patterns@),
            canonical_stop_ids@,
            destination_filter_applied,
        ),
{
    let unknown_stop_ids = find_unknown_stop_ids(observed_stop_ids, canonical_stop_ids);
    let best_exact = best_partial_alignment(
        candidate_patterns,
        observed_stop_ids,
        canonical_stop_ids,
        StopMatchMode::Exact,
    );
    let best_parent = best_partial_alignment(
        candidate_patterns,
        observed_stop_ids,
        canonical_stop_ids,
        StopMatchMode::ParentStation,
    );
    let candidate_has_full_alignment = has_full_alignment(
        candidate_patterns,
        observed_stop_ids,
        canonical_stop_ids,
    );
    let all_patterns_have_full_alignment = has_full_alignment(
        all_patterns,
        observed_stop_ids,
        canonical_stop_ids,
    );
    let match_exists_without_destination_filter = destination_filter_applied
        && !candidate_has_full_alignment && all_patterns_have_full_alignment;
    let consecutive_duplicate_count = count_consecutive_duplicates(
        observed_stop_ids,
        canonical_stop_ids,
    );
    let collapsed_calls = collapse_consecutive_calls(observed_stop_ids, canonical_stop_ids);
    let collapsed_duplicate_alignment_exists = consecutive_duplicate_count > 0
        && has_full_alignment(candidate_patterns, collapsed_calls.as_slice(), canonical_stop_ids);
    let all_stops_known_in_one_pattern = unknown_stop_ids.len() == 0 && any_contains_all_calls(
        candidate_patterns,
        observed_stop_ids,
        canonical_stop_ids,
    );
    let observed_call_count = observed_stop_ids.len();
    let matched_calls = best_parent.matched_calls;
    let best_parent_match_percent: u8 = if observed_call_count == 0 {
        0
    } else {
        let percent: usize = saturating_product(matched_calls, 100) / observed_call_count;
        if percent > 100 {
            100
        } else {
            percent as u8
        }
    };
    let kind = if match_exists_without_destination_filter {
        StopAlignmentFailureKind::DestinationFilterMismatch
    } else if collapsed_duplicate_alignment_exists {
        StopAlignmentFailureKind::ConsecutiveDuplicateCalls
    } else if unknown_stop_ids.len() > 0 {
        StopAlignmentFailureKind::UnknownSiriStopIds
    } else if all_stops_known_in_one_pattern {
        StopAlignmentFailureKind::AllStopsKnownButWrongOrder
    } else if matched_calls > 0 && saturating_product(matched_calls, 10) >= saturating_product(
        observed_call_count,
        9,
    ) {
        StopAlignmentFailureKind::PartialAlignment90Percent
    } else if matched_calls > 0 {
        StopAlignmentFailureKind::PartialAlignmentBelow90Percent
    } else {
        StopAlignmentFailureKind::NoStopAlignment
    };
    StopAlignmentDiagnostics {
        kind,
        observed_call_count,
        unknown_stop_ids,
        best_exact_matched_calls: best_exact.matched_calls,
        best_parent_matched_calls: matched_calls,
        best_parent_match_percent,
        best_pattern_call_count: best_parent.pattern_call_count,
        first_unmatched_call_index: best_parent.first_unmatched_call_index,
        consecutive_duplicate_count,
        collapsed_duplicate_alignment_exists,
        match_exists_without_destination_filter,
        all_stops_known_in_one_pattern,
    }
}

} // verus!
