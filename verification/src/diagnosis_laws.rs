//! What holds of diagnoses: what is said of calls that have no alignment.

use crate::alignment;
use crate::directions;
use crate::feed_laws;
use crate::gtfs::{self, Gtfs};
use crate::matching::{self, GtfsMatchIndex, MatchMissReason};
use crate::matching_diagnostics::{self, StopAlignmentDiagnostics, StopAlignmentFailureKind};
use crate::matching_laws;
use crate::siri_models::Journey;
use crate::stops::{self, StopMatchMode};
use crate::strict_laws;
use crate::text;
use crate::time_laws;
use vstd::prelude::*;

verus! {

/// Whether a stop of a pattern is that of a call, or of the same station if that is enough.
pub open spec fn is_at(
    stop: Seq<char>,
    call: Seq<char>,
    stations: Map<Seq<char>, String>,
    by_station: bool,
) -> bool {
    stop == call || by_station && stops::station_of(stations, stop) == stops::station_of(
        stations,
        call,
    )
}

/// Whether some calls follow a pattern: each of them at a place of it, in order.
pub open spec fn is_following(
    calls: Seq<int>,
    places: Seq<int>,
    pattern: Seq<Seq<char>>,
    observed: Seq<Seq<char>>,
    stations: Map<Seq<char>, String>,
    by_station: bool,
) -> bool {
    &&& calls.len() == places.len()
    &&& forall|k: int|
        #![trigger calls[k]]
        #![trigger places[k]]
        0 <= k < calls.len() ==> 0 <= calls[k] < observed.len() && 0 <= places[k] < pattern.len()
            && is_at(pattern[places[k]], observed[calls[k]], stations, by_station)
    &&& forall|k: int, l: int|
        0 <= k < l < calls.len() ==> #[trigger] calls[k] < #[trigger] calls[l]
    &&& forall|k: int, l: int|
        0 <= k < l < places.len() ==> #[trigger] places[k] < #[trigger] places[l]
}

/// Whether all calls follow a pattern.
pub open spec fn all_follow(
    pattern: Seq<Seq<char>>,
    observed: Seq<Seq<char>>,
    stations: Map<Seq<char>, String>,
    by_station: bool,
) -> bool {
    exists|calls: Seq<int>, places: Seq<int>| #[trigger]
        is_following(calls, places, pattern, observed, stations, by_station) && calls.len()
            == observed.len()
}

/// How stops are compared.
pub open spec fn mode_by(by_station: bool) -> StopMatchMode {
    if by_station {
        StopMatchMode::ParentStation
    } else {
        StopMatchMode::Exact
    }
}

proof fn longest_is_monotone(
    calls: int,
    more_calls: int,
    places: int,
    more_places: int,
    may: spec_fn(int, int) -> bool,
)
    requires
        0 <= calls <= more_calls,
        0 <= places <= more_places,
    ensures
        alignment::longest(calls, places, may) <= alignment::longest(
            more_calls,
            more_places,
            may,
        ),
    decreases more_calls + more_places,
{
    alignment::longest_grows_slowly(more_calls, more_places, may);
    if calls < more_calls {
        longest_is_monotone(calls, more_calls - 1, places, more_places, may);
    } else if places < more_places {
        longest_is_monotone(calls, more_calls, places, more_places - 1, may);
    }
}

proof fn following_is_no_longer(
    calls: Seq<int>,
    places: Seq<int>,
    pattern: Seq<Seq<char>>,
    observed: Seq<Seq<char>>,
    stations: Map<Seq<char>, String>,
    by_station: bool,
)
    requires
        is_following(calls, places, pattern, observed, stations, by_station),
    ensures
        calls.len() <= alignment::longest(
            observed.len() as int,
            pattern.len() as int,
            matching_diagnostics::may_call(pattern, observed, stations, mode_by(by_station)),
        ),
        calls.len() > 0 ==> calls.len() <= alignment::longest(
            calls.last() + 1,
            places.last() + 1,
            matching_diagnostics::may_call(pattern, observed, stations, mode_by(by_station)),
        ),
    decreases calls.len(),
{
    let may = matching_diagnostics::may_call(pattern, observed, stations, mode_by(by_station));
    alignment::longest_grows_slowly(observed.len() as int, pattern.len() as int, may);
    if calls.len() > 0 {
        let n = calls.len() - 1;
        let c = calls[n];
        let p = places[n];
        assert(may(c, p));
        let fewer = calls.drop_last();
        let less = places.drop_last();
        assert(is_following(fewer, less, pattern, observed, stations, by_station)) by {
            assert forall|k: int|
                #![trigger fewer[k]]
                #![trigger less[k]]
                0 <= k < fewer.len() implies 0 <= fewer[k] < observed.len() && 0 <= less[k]
                < pattern.len() && is_at(
                pattern[less[k]],
                observed[fewer[k]],
                stations,
                by_station,
            ) by {
                assert(calls[k] == fewer[k]);
            }
        }
        following_is_no_longer(fewer, less, pattern, observed, stations, by_station);
        alignment::longest_grows_slowly(c, p, may);
        if n > 0 {
            assert(calls[n - 1] < calls[n]);
            assert(places[n - 1] < places[n]);
            assert(fewer.last() == calls[n - 1]);
            assert(less.last() == places[n - 1]);
            longest_is_monotone(fewer.last() + 1, c, less.last() + 1, p, may);
        }
        longest_is_monotone(c + 1, observed.len() as int, p + 1, pattern.len() as int, may);
    }
}

proof fn partial_alignment_is_followed(
    at: Seq<Option<usize>>,
    pattern: Seq<Seq<char>>,
    observed: Seq<Seq<char>>,
    stations: Map<Seq<char>, String>,
    by_station: bool,
) -> (r: (Seq<int>, Seq<int>))
    requires
        at.len() <= observed.len(),
        alignment::is_partial_alignment(
            at,
            pattern.len() as int,
            matching_diagnostics::may_call(pattern, observed, stations, mode_by(by_station)),
        ),
    ensures
        is_following(r.0, r.1, pattern, observed, stations, by_station),
        r.0.len() == alignment::matched(at),
        r.0.len() > 0 ==> r.0.last() < at.len() && at[r.0.last()] is Some && r.1.last()
            == at[r.0.last()]->0,
    decreases at.len(),
{
    let may = matching_diagnostics::may_call(pattern, observed, stations, mode_by(by_station));
    if at.len() == 0 {
        (seq![], seq![])
    } else {
        let rest = at.drop_last();
        let n = rest.len() as int;
        assert forall|i: int| 0 <= i < n implies #[trigger] at[i] == rest[i] by {}
        assert(at[n] == at.last());
        assert(alignment::is_partial_alignment(rest, pattern.len() as int, may)) by {
            assert forall|i: int| 0 <= i < n && #[trigger] rest[i] is Some implies rest[i]->0
                < pattern.len() && may(i, rest[i]->0 as int) by {
                assert(at[i] == rest[i]);
            }
            assert forall|i: int, j: int|
                0 <= i < j < n && #[trigger] rest[i] is Some && #[trigger] rest[j] is Some implies
                rest[i]->0 < rest[j]->0 by {
                assert(at[i] == rest[i] && at[j] == rest[j]);
            }
        }
        let (calls, places) = partial_alignment_is_followed(
            rest,
            pattern,
            observed,
            stations,
            by_station,
        );
        if at.last() is Some {
            let p = at[n]->0 as int;
            assert(may(n, p));
            let more = calls.push(n);
            let further = places.push(p);
            if calls.len() > 0 {
                let c = calls.last();
                assert(calls[calls.len() - 1] == c);
                assert(at[c] is Some && at[n] is Some);
                assert(at[c]->0 < at[n]->0);
                assert forall|k: int| 0 <= k < calls.len() implies #[trigger] calls[k] < n
                    && places[k] < p by {
                    if k < calls.len() - 1 {
                        assert(calls[k] < calls[calls.len() - 1]);
                        assert(places[k] < places[calls.len() - 1]);
                    }
                }
            }
            assert forall|k: int|
                #![trigger more[k]]
                #![trigger further[k]]
                0 <= k < more.len() implies 0 <= more[k] < observed.len() && 0 <= further[k]
                < pattern.len() && is_at(
                pattern[further[k]],
                observed[more[k]],
                stations,
                by_station,
            ) by {
                if k < calls.len() {
                    assert(more[k] == calls[k]);
                }
            }
            assert forall|k: int, l: int| 0 <= k < l < further.len() implies #[trigger] further[k]
                < #[trigger] further[l] by {
                if l < places.len() {
                    assert(places[k] < places[l]);
                } else {
                    assert(calls[k] < n);
                }
            }
            (more, further)
        } else {
            if calls.len() > 0 {
                assert(at[calls.last()] == rest[calls.last()]);
            }
            (calls, places)
        }
    }
}

/// A pattern is followed by all calls exactly if they have an alignment with it.
proof fn fitting_is_following(
    pattern: Seq<Seq<char>>,
    observed: Seq<Seq<char>>,
    stations: Map<Seq<char>, String>,
    by_station: bool,
)
    requires
        pattern.len() <= usize::MAX,
    ensures
        matching_diagnostics::fits(pattern, observed, stations, mode_by(by_station))
            <==> all_follow(pattern, observed, stations, by_station),
{
    let may = matching_diagnostics::may_call(pattern, observed, stations, mode_by(by_station));
    let n = observed.len() as int;
    let m = pattern.len() as int;
    alignment::full_alignment_is_longest(n, m, may);
    alignment::longest_grows_slowly(n, m, may);
    alignment::longest_alignment_is_longest(n, m, may);
    let at = alignment::longest_alignment(n, m, may);
    let (calls, places) = partial_alignment_is_followed(
        at,
        pattern,
        observed,
        stations,
        by_station,
    );
    if alignment::longest(n, m, may) == n {
        assert(is_following(calls, places, pattern, observed, stations, by_station)
            && calls.len() == observed.len());
    }
    if all_follow(pattern, observed, stations, by_station) {
        let (c, p) = choose|c: Seq<int>, p: Seq<int>| #[trigger]
            is_following(c, p, pattern, observed, stations, by_station) && c.len()
                == observed.len();
        following_is_no_longer(c, p, pattern, observed, stations, by_station);
    }
}

/// Whether one of the patterns is followed by all calls, stop by stop or station by station.
pub open spec fn one_is_followed(
    patterns: Seq<Seq<Seq<char>>>,
    observed: Seq<Seq<char>>,
    stations: Map<Seq<char>, String>,
) -> bool {
    exists|p: int| 0 <= p < patterns.len() && all_follow(
        #[trigger] patterns[p],
        observed,
        stations,
        true,
    )
}

proof fn fitting_one_is_following_one(
    patterns: Seq<Seq<Seq<char>>>,
    observed: Seq<Seq<char>>,
    stations: Map<Seq<char>, String>,
)
    requires
        forall|p: int| 0 <= p < patterns.len() ==> (#[trigger] patterns[p]).len() <= usize::MAX,
    ensures
        matching_diagnostics::fits_one(patterns, observed, stations) <==> one_is_followed(
            patterns,
            observed,
            stations,
        ),
{
    if matching_diagnostics::fits_one(patterns, observed, stations) {
        let p = choose|p: int|
            0 <= p < patterns.len() && (matching_diagnostics::fits(
                #[trigger] patterns[p],
                observed,
                stations,
                StopMatchMode::Exact,
            ) || matching_diagnostics::fits(
                patterns[p],
                observed,
                stations,
                StopMatchMode::ParentStation,
            ));
        fitting_is_following(patterns[p], observed, stations, false);
        fitting_is_following(patterns[p], observed, stations, true);
        if all_follow(patterns[p], observed, stations, false) {
            let (c, q) = choose|c: Seq<int>, q: Seq<int>| #[trigger]
                is_following(c, q, patterns[p], observed, stations, false) && c.len()
                    == observed.len();
            assert(is_following(c, q, patterns[p], observed, stations, true)) by {
                assert forall|k: int|
                    #![trigger c[k]]
                    #![trigger q[k]]
                    0 <= k < c.len() implies 0 <= c[k] < observed.len() && 0 <= q[k]
                    < patterns[p].len() && is_at(
                    patterns[p][q[k]],
                    observed[c[k]],
                    stations,
                    true,
                ) by {}
            }
        }
        assert(all_follow(patterns[p], observed, stations, true));
    }
    if one_is_followed(patterns, observed, stations) {
        let p = choose|p: int|
            0 <= p < patterns.len() && all_follow(
                #[trigger] patterns[p],
                observed,
                stations,
                true,
            );
        fitting_is_following(patterns[p], observed, stations, true);
        assert(matching_diagnostics::fits(
            patterns[p],
            observed,
            stations,
            StopMatchMode::ParentStation,
        ));
    }
}

/// How many of the calls below `n` are at the station of the call before them.
pub open spec fn repeated(
    observed: Seq<Seq<char>>,
    stations: Map<Seq<char>, String>,
    n: int,
) -> int
    decreases n,
{
    if n <= 1 {
        0
    } else if stops::station_of(stations, observed[n - 2]) == stops::station_of(
        stations,
        observed[n - 1],
    ) {
        repeated(observed, stations, n - 1) + 1
    } else {
        repeated(observed, stations, n - 1)
    }
}

proof fn repeats_are_repeated(
    observed: Seq<Seq<char>>,
    stations: Map<Seq<char>, String>,
    n: int,
)
    requires
        0 <= n <= observed.len(),
    ensures
        matching_diagnostics::repeats(observed.take(n), stations) == repeated(
            observed,
            stations,
            n,
        ),
    decreases n,
{
    if n >= 2 {
        repeats_are_repeated(observed, stations, n - 1);
        let part = observed.take(n);
        assert(part.drop_last() =~= observed.take(n - 1));
        assert(part[part.len() - 2] == observed[n - 2]);
        assert(part.last() == observed[n - 1]);
    }
}

/// Which calls begin at another station than the call before them.
pub open spec fn is_elsewhere(
    observed: Seq<Seq<char>>,
    stations: Map<Seq<char>, String>,
) -> spec_fn(int) -> bool {
    |j: int|
        j == 0 || stops::station_of(stations, observed[j - 1]) != stops::station_of(
            stations,
            observed[j],
        )
}

/// Whether calls are those of `observed` in `from`: each that is at another station than the call
/// before it.
pub open spec fn are_without_repeats(
    kept: Seq<Seq<char>>,
    observed: Seq<Seq<char>>,
    stations: Map<Seq<char>, String>,
    from: Seq<int>,
) -> bool {
    &&& feed_laws::is_listing(from, observed.len() as int, is_elsewhere(observed, stations))
    &&& kept.len() == from.len()
    &&& forall|k: int| 0 <= k < kept.len() ==> #[trigger] kept[k] == observed[from[k]]
}

proof fn collapsed_from(
    observed: Seq<Seq<char>>,
    stations: Map<Seq<char>, String>,
) -> (from: Seq<int>)
    ensures
        are_without_repeats(
            matching_diagnostics::collapsed(observed, stations),
            observed,
            stations,
            from,
        ),
        observed.len() > 0 ==> matching_diagnostics::collapsed(observed, stations).len() > 0
            && stops::station_of(
            stations,
            matching_diagnostics::collapsed(observed, stations).last(),
        ) == stops::station_of(stations, observed.last()),
    decreases observed.len(),
{
    if observed.len() == 0 {
        seq![]
    } else {
        let rest = observed.drop_last();
        let n = rest.len() as int;
        let before = collapsed_from(rest, stations);
        let p = is_elsewhere(rest, stations);
        let q = is_elsewhere(observed, stations);
        let kept = matching_diagnostics::collapsed(observed, stations);
        assert(observed[n] == observed.last());
        assert forall|j: int| 0 <= j < n implies (#[trigger] q(j) <==> p(j)) by {
            assert(observed[j] == rest[j]);
            if j > 0 {
                assert(observed[j - 1] == rest[j - 1]);
            }
        }
        if n > 0 {
            assert(rest.last() == observed[n - 1]);
        }
        let from = feed_laws::listing_grows(before, n, p, q);
        assert forall|k: int| 0 <= k < kept.len() implies #[trigger] kept[k]
            == observed[from[k]] by {
            if k < before.len() {
                assert(from[k] == before[k]);
                assert(0 <= before[k] < n);
            }
        }
        from
    }
}

/// The law of repeated calls: of calls in a row at one station the first is kept.
pub proof fn repeats_are_left_out(observed: Seq<Seq<char>>, stations: Map<Seq<char>, String>)
    ensures
        exists|from: Seq<int>| #[trigger]
            are_without_repeats(
                matching_diagnostics::collapsed(observed, stations),
                observed,
                stations,
                from,
            ),
        matching_diagnostics::repeats(observed, stations) == repeated(
            observed,
            stations,
            observed.len() as int,
        ),
{
    let from = collapsed_from(observed, stations);
    repeats_are_repeated(observed, stations, observed.len() as int);
    assert(observed.take(observed.len() as int) =~= observed);
}

/// How often a station is among the first `n` of a list of stops.
pub open spec fn times_at(
    ids: Seq<Seq<char>>,
    stations: Map<Seq<char>, String>,
    station: Seq<char>,
    n: int,
) -> int
    decreases n,
{
    if n <= 0 {
        0
    } else if stops::station_of(stations, ids[n - 1]) == station {
        times_at(ids, stations, station, n - 1) + 1
    } else {
        times_at(ids, stations, station, n - 1)
    }
}

proof fn times_are_counted(
    ids: Seq<Seq<char>>,
    stations: Map<Seq<char>, String>,
    station: Seq<char>,
    n: int,
)
    requires
        0 <= n <= ids.len(),
    ensures
        matching_diagnostics::stations_of(ids, stations).take(n).to_multiset().count(station)
            == times_at(ids, stations, station, n),
    decreases n,
{
    broadcast use vstd::seq_lib::group_to_multiset_ensures;

    let all = matching_diagnostics::stations_of(ids, stations);
    if n > 0 {
        times_are_counted(ids, stations, station, n - 1);
        assert(all.take(n) =~= all.take(n - 1).push(all[n - 1]));
    } else {
        assert(all.take(0) =~= seq![]);
    }
}

/// Whether a pattern is at each station at least as often as the calls are.
pub open spec fn is_everywhere(
    pattern: Seq<Seq<char>>,
    observed: Seq<Seq<char>>,
    stations: Map<Seq<char>, String>,
) -> bool {
    forall|station: Seq<char>| #[trigger]
        times_at(observed, stations, station, observed.len() as int) <= times_at(
            pattern,
            stations,
            station,
            pattern.len() as int,
        )
}

proof fn having_all_is_everywhere(
    pattern: Seq<Seq<char>>,
    observed: Seq<Seq<char>>,
    stations: Map<Seq<char>, String>,
)
    ensures
        matching_diagnostics::has_all_stations(pattern, observed, stations) <==> is_everywhere(
            pattern,
            observed,
            stations,
        ),
{
    let a = matching_diagnostics::stations_of(observed, stations);
    let b = matching_diagnostics::stations_of(pattern, stations);
    assert forall|station: Seq<char>|
        a.to_multiset().count(station) == #[trigger] times_at(
            observed,
            stations,
            station,
            observed.len() as int,
        ) && b.to_multiset().count(station) == times_at(
            pattern,
            stations,
            station,
            pattern.len() as int,
        ) by {
        times_are_counted(observed, stations, station, observed.len() as int);
        times_are_counted(pattern, stations, station, pattern.len() as int);
        assert(a.take(observed.len() as int) =~= a);
        assert(b.take(pattern.len() as int) =~= b);
    }
    if is_everywhere(pattern, observed, stations) {
        assert forall|station: Seq<char>| #[trigger] a.to_multiset().count(station)
            <= b.to_multiset().count(station) by {
            assert(times_at(observed, stations, station, observed.len() as int) <= times_at(
                pattern,
                stations,
                station,
                pattern.len() as int,
            ));
        }
    }
}

/// Whether a number is the most calls that follow one of the patterns.
pub open spec fn is_most_followed(
    most: int,
    patterns: Seq<Seq<Seq<char>>>,
    observed: Seq<Seq<char>>,
    stations: Map<Seq<char>, String>,
    by_station: bool,
) -> bool {
    &&& patterns.len() == 0 ==> most == 0
    &&& patterns.len() > 0 ==> exists|p: int, calls: Seq<int>, places: Seq<int>|
        0 <= p < patterns.len() && #[trigger] is_following(
            calls,
            places,
            patterns[p],
            observed,
            stations,
            by_station,
        ) && calls.len() == most
    &&& forall|p: int, calls: Seq<int>, places: Seq<int>|
        0 <= p < patterns.len() && #[trigger] is_following(
            calls,
            places,
            patterns[p],
            observed,
            stations,
            by_station,
        ) ==> calls.len() <= most
}

proof fn best_is_most_followed(
    patterns: Seq<Seq<Seq<char>>>,
    observed: Seq<Seq<char>>,
    stations: Map<Seq<char>, String>,
    by_station: bool,
)
    requires
        observed.len() <= usize::MAX,
        forall|p: int| 0 <= p < patterns.len() ==> (#[trigger] patterns[p]).len() <= usize::MAX,
    ensures
        ({
            let best = matching_diagnostics::best_of(
                matching_diagnostics::summaries(patterns, observed, stations, mode_by(by_station)),
                observed.len() as int,
            );
            &&& is_most_followed(
                best.matched_calls as int,
                patterns,
                observed,
                stations,
                by_station,
            )
            &&& forall|p: int, calls: Seq<int>, places: Seq<int>|
                0 <= p < patterns.len() && #[trigger] is_following(
                    calls,
                    places,
                    patterns[p],
                    observed,
                    stations,
                    by_station,
                ) && calls.len() == best.matched_calls ==> time_laws::apart(
                    best.pattern_call_count as int,
                    observed.len() as int,
                ) <= time_laws::apart(patterns[p].len() as int, observed.len() as int)
            &&& patterns.len() > 0 ==> exists|p: int|
                0 <= p < patterns.len() && best.pattern_call_count == (
                #[trigger] patterns[p]).len() && best.matched_calls == alignment::longest(
                    observed.len() as int,
                    patterns[p].len() as int,
                    matching_diagnostics::may_call(
                        patterns[p],
                        observed,
                        stations,
                        mode_by(by_station),
                    ),
                ) && best.first_unmatched_call_index == alignment::first_left_out(
                    matching_diagnostics::followed(
                        patterns[p],
                        observed,
                        stations,
                        mode_by(by_station),
                    ),
                )
        }),
{
    let mode = mode_by(by_station);
    let n = observed.len() as int;
    let all = matching_diagnostics::summaries(patterns, observed, stations, mode);
    let best = matching_diagnostics::best_of(all, n);
    assert forall|p: int| 0 <= p < patterns.len() implies (#[trigger] all[p]).matched_calls
        == alignment::longest(
        n,
        patterns[p].len() as int,
        matching_diagnostics::may_call(patterns[p], observed, stations, mode),
    ) && all[p].pattern_call_count == patterns[p].len() by {
        let may = matching_diagnostics::may_call(patterns[p], observed, stations, mode);
        alignment::longest_alignment_is_longest(n, patterns[p].len() as int, may);
        alignment::longest_grows_slowly(n, patterns[p].len() as int, may);
    }
    if patterns.len() > 0 {
        matching_diagnostics::best_is_not_beaten(all, n);
        let b = choose|b: int| 0 <= b < all.len() && all[b] == best;
        let may = matching_diagnostics::may_call(patterns[b], observed, stations, mode);
        let m = patterns[b].len() as int;
        alignment::longest_alignment_is_longest(n, m, may);
        let at = alignment::longest_alignment(n, m, may);
        assert(all[b].matched_calls == alignment::longest(n, m, may));
        let (calls, places) = partial_alignment_is_followed(
            at,
            patterns[b],
            observed,
            stations,
            by_station,
        );
        assert(is_following(calls, places, patterns[b], observed, stations, by_station));
        assert forall|p: int, c: Seq<int>, q: Seq<int>|
            0 <= p < patterns.len() && #[trigger] is_following(
                c,
                q,
                patterns[p],
                observed,
                stations,
                by_station,
            ) implies c.len() <= best.matched_calls && (c.len() == best.matched_calls
            ==> time_laws::apart(best.pattern_call_count as int, n) <= time_laws::apart(
            patterns[p].len() as int,
            n,
        )) by {
            following_is_no_longer(c, q, patterns[p], observed, stations, by_station);
            assert(!matching_diagnostics::beats(all[p], best, n));
        }
    }
}

/// The law of diagnoses: one tells how many calls there are; which of them are at stops that are
/// not known; how many at the most follow one of the patterns, stop by stop and station by station,
/// and how many stops that pattern has, as near to the number of calls as any; how many calls are
/// at the station of the call before them.
pub proof fn diagnoses_tell_how_far_calls_follow(
    d: StopAlignmentDiagnostics,
    observed: Seq<Seq<char>>,
    candidates: Seq<Seq<Seq<char>>>,
    all: Seq<Seq<Seq<char>>>,
    stations: Map<Seq<char>, String>,
    filtered: bool,
    id: Seq<char>,
)
    requires
        matching_diagnostics::is_diagnosis(d, observed, candidates, all, stations, filtered),
        forall|p: int|
            0 <= p < candidates.len() ==> (#[trigger] candidates[p]).len() <= usize::MAX,
    ensures
        d.observed_call_count == observed.len(),
        text::texts(d.unknown_stop_ids@).contains(id) <==> observed.contains(id)
            && !stations.contains_key(id),
        is_most_followed(
            d.best_exact_matched_calls as int,
            candidates,
            observed,
            stations,
            false,
        ),
        is_most_followed(
            d.best_parent_matched_calls as int,
            candidates,
            observed,
            stations,
            true,
        ),
        candidates.len() > 0 ==> exists|p: int|
            0 <= p < candidates.len() && (#[trigger] candidates[p]).len()
                == d.best_pattern_call_count,
        forall|p: int, calls: Seq<int>, places: Seq<int>|
            0 <= p < candidates.len() && #[trigger] is_following(
                calls,
                places,
                candidates[p],
                observed,
                stations,
                true,
            ) && calls.len() == d.best_parent_matched_calls ==> time_laws::apart(
                d.best_pattern_call_count as int,
                observed.len() as int,
            ) <= time_laws::apart(candidates[p].len() as int, observed.len() as int),
        d.consecutive_duplicate_count == repeated(observed, stations, observed.len() as int),
        candidates.len() > 0 ==> (d.first_unmatched_call_index is None
            <==> d.best_parent_matched_calls == observed.len()),
        d.first_unmatched_call_index matches Some(i) ==> i < observed.len(),
{
    assert(observed.len() <= usize::MAX);
    best_is_most_followed(candidates, observed, stations, false);
    best_is_most_followed(candidates, observed, stations, true);
    repeats_are_left_out(observed, stations);
    let listed = text::texts(d.unknown_stop_ids@);
    assert(listed.contains(id) <==> listed.to_set().contains(id));
    assert(observed.contains(id) <==> observed.to_set().contains(id));
    if candidates.len() > 0 {
        let mode = mode_by(true);
        let best = matching_diagnostics::best_of(
            matching_diagnostics::summaries(candidates, observed, stations, mode),
            observed.len() as int,
        );
        let p = choose|p: int|
            0 <= p < candidates.len() && best.pattern_call_count == (
            #[trigger] candidates[p]).len() && best.matched_calls == alignment::longest(
                observed.len() as int,
                candidates[p].len() as int,
                matching_diagnostics::may_call(candidates[p], observed, stations, mode),
            ) && best.first_unmatched_call_index == alignment::first_left_out(
                matching_diagnostics::followed(candidates[p], observed, stations, mode),
            );
        let may = matching_diagnostics::may_call(candidates[p], observed, stations, mode);
        alignment::longest_alignment_is_longest(
            observed.len() as int,
            candidates[p].len() as int,
            may,
        );
        first_gap_is_the_first(
            matching_diagnostics::followed(candidates[p], observed, stations, mode),
        );
    }
}

proof fn first_gap_is_the_first(at: Seq<Option<usize>>)
    requires
        at.len() <= usize::MAX,
    ensures
        alignment::matched(at) <= at.len(),
        alignment::first_left_out(at) is None <==> alignment::matched(at) == at.len(),
        alignment::first_left_out(at) matches Some(i) ==> i < at.len() && at[i as int] is None
            && forall|j: int| 0 <= j < i ==> #[trigger] at[j] is Some,
        alignment::first_left_out(at) is None ==> forall|j: int|
            0 <= j < at.len() ==> #[trigger] at[j] is Some,
    decreases at.len(),
{
    if at.len() > 0 {
        let rest = at.drop_last();
        first_gap_is_the_first(rest);
        assert forall|j: int| 0 <= j < rest.len() implies #[trigger] at[j] == rest[j] by {}
        assert(at[at.len() - 1] == at.last());
    }
}

/// The law of the first gap: it is the first call that a partial alignment puts nowhere.
pub proof fn gaps_are_found_from_the_front(at: Seq<Option<usize>>, i: int)
    requires
        0 <= i < at.len() <= usize::MAX,
        at[i] is None,
        forall|j: int| 0 <= j < i ==> #[trigger] at[j] is Some,
    ensures
        alignment::first_left_out(at) == Some(i as usize),
{
    first_gap_is_the_first(at);
}

/// The law of diagnoses: one tells whether the calls follow a pattern without their repetitions,
/// whether they would follow one that the destination leaves out, and whether one pattern is at
/// every station of the calls as often as they are.
pub proof fn diagnoses_tell_what_would_help(
    d: StopAlignmentDiagnostics,
    observed: Seq<Seq<char>>,
    candidates: Seq<Seq<Seq<char>>>,
    all: Seq<Seq<Seq<char>>>,
    stations: Map<Seq<char>, String>,
    filtered: bool,
)
    requires
        matching_diagnostics::is_diagnosis(d, observed, candidates, all, stations, filtered),
        forall|p: int|
            0 <= p < candidates.len() ==> (#[trigger] candidates[p]).len() <= usize::MAX,
        forall|p: int| 0 <= p < all.len() ==> (#[trigger] all[p]).len() <= usize::MAX,
    ensures
        d.match_exists_without_destination_filter <==> filtered && !one_is_followed(
            candidates,
            observed,
            stations,
        ) && one_is_followed(all, observed, stations),
        d.collapsed_duplicate_alignment_exists <==> repeated(
            observed,
            stations,
            observed.len() as int,
        ) > 0 && one_is_followed(
            candidates,
            matching_diagnostics::collapsed(observed, stations),
            stations,
        ),
        d.all_stops_known_in_one_pattern <==> (forall|i: int|
            0 <= i < observed.len() ==> stations.contains_key(#[trigger] observed[i])) && exists|
            p: int,
        |
            0 <= p < candidates.len() && is_everywhere(
                #[trigger] candidates[p],
                observed,
                stations,
            ),
{
    fitting_one_is_following_one(candidates, observed, stations);
    fitting_one_is_following_one(all, observed, stations);
    fitting_one_is_following_one(
        candidates,
        matching_diagnostics::collapsed(observed, stations),
        stations,
    );
    repeats_are_left_out(observed, stations);
    nothing_unknown(d, observed, candidates, all, stations, filtered);
    if matching_diagnostics::one_has_all_stations(candidates, observed, stations) {
        let p = choose|p: int|
            0 <= p < candidates.len() && matching_diagnostics::has_all_stations(
                #[trigger] candidates[p],
                observed,
                stations,
            );
        having_all_is_everywhere(candidates[p], observed, stations);
        assert(is_everywhere(candidates[p], observed, stations));
    }
    if exists|p: int|
        0 <= p < candidates.len() && is_everywhere(#[trigger] candidates[p], observed, stations) {
        let p = choose|p: int|
            0 <= p < candidates.len() && is_everywhere(
                #[trigger] candidates[p],
                observed,
                stations,
            );
        having_all_is_everywhere(candidates[p], observed, stations);
        assert(matching_diagnostics::has_all_stations(candidates[p], observed, stations));
    }
}

proof fn nothing_unknown(
    d: StopAlignmentDiagnostics,
    observed: Seq<Seq<char>>,
    candidates: Seq<Seq<Seq<char>>>,
    all: Seq<Seq<Seq<char>>>,
    stations: Map<Seq<char>, String>,
    filtered: bool,
)
    requires
        matching_diagnostics::is_diagnosis(d, observed, candidates, all, stations, filtered),
    ensures
        d.unknown_stop_ids@.len() == 0 <==> forall|i: int|
            0 <= i < observed.len() ==> stations.contains_key(#[trigger] observed[i]),
{
    let listed = text::texts(d.unknown_stop_ids@);
    let unknown = matching_diagnostics::unknown(observed, stations);
    if d.unknown_stop_ids@.len() == 0 {
        assert forall|i: int| 0 <= i < observed.len() implies stations.contains_key(
            #[trigger] observed[i],
        ) by {
            assert(observed.to_set().contains(observed[i])) by {
                assert(observed.contains(observed[i]));
            }
            if !stations.contains_key(observed[i]) {
                assert(unknown.contains(observed[i]));
                assert(listed.to_set().contains(observed[i]));
            }
        }
    } else {
        assert(listed.contains(listed[0]));
        assert(listed.to_set().contains(listed[0]));
        assert(unknown.contains(listed[0]));
        let i = choose|i: int| 0 <= i < observed.len() && observed[i] == listed[0];
        assert(!stations.contains_key(observed[i]));
    }
}

/// The law of kinds: that of a diagnosis is the first that holds of these: the destination leaves
/// out what the calls follow; repetitions keep them from following; a stop is not known; all
/// stations are there in another order; at least nine of ten calls follow; some do; none does.
pub proof fn kinds_are_told_in_turn(
    d: StopAlignmentDiagnostics,
    observed: Seq<Seq<char>>,
    candidates: Seq<Seq<Seq<char>>>,
    all: Seq<Seq<Seq<char>>>,
    stations: Map<Seq<char>, String>,
    filtered: bool,
)
    requires
        matching_diagnostics::is_diagnosis(d, observed, candidates, all, stations, filtered),
        observed.len() * 10 <= usize::MAX,
        d.best_parent_matched_calls <= observed.len(),
    ensures
        ({
            let followed = d.best_parent_matched_calls;
            let calls = observed.len();
            if d.match_exists_without_destination_filter {
                d.kind == StopAlignmentFailureKind::DestinationFilterMismatch
            } else if d.collapsed_duplicate_alignment_exists {
                d.kind == StopAlignmentFailureKind::ConsecutiveDuplicateCalls
            } else if exists|i: int|
                0 <= i < observed.len() && !stations.contains_key(#[trigger] observed[i]) {
                d.kind == StopAlignmentFailureKind::UnknownSiriStopIds
            } else if d.all_stops_known_in_one_pattern {
                d.kind == StopAlignmentFailureKind::AllStopsKnownButWrongOrder
            } else if followed > 0 && followed * 10 >= calls * 9 {
                d.kind == StopAlignmentFailureKind::PartialAlignment90Percent
            } else if followed > 0 {
                d.kind == StopAlignmentFailureKind::PartialAlignmentBelow90Percent
            } else {
                d.kind == StopAlignmentFailureKind::NoStopAlignment
            }
        }),
        d.kind == matching_diagnostics::kind_of(observed, candidates, all, stations, filtered),
{
    nothing_unknown(d, observed, candidates, all, stations, filtered);
    matching_diagnostics::diagnosis_has_its_kind(
        d,
        observed,
        candidates,
        all,
        stations,
        filtered,
    );
}

/// The law of shares: the share of the calls that follow is told in whole percent, cut off.
pub proof fn shares_are_in_percent(matched: int, calls: int)
    requires
        0 <= matched <= calls,
        matched * 100 <= usize::MAX,
    ensures
        ({
            let percent = matching_diagnostics::match_percent(matched, calls);
            &&& calls == 0 ==> percent == 0
            &&& calls > 0 ==> percent * calls <= matched * 100 < (percent + 1) * calls
            &&& calls > 0 && matched == calls ==> percent == 100
        }),
{
    if calls > 0 {
        let quotient = matched * 100 / calls;
        assert(quotient * calls <= matched * 100 < (quotient + 1) * calls && quotient <= 100)
            by (nonlinear_arith)
            requires
                calls > 0,
                0 <= matched <= calls,
                quotient == matched * 100 / calls,
        ;
        assert(matched == calls ==> quotient == 100) by (nonlinear_arith)
            requires
                calls > 0,
                quotient == matched * 100 / calls,
        ;
    }
}

/// The law of names: each kind of failure has its own.
pub proof fn kinds_have_their_names()
    ensures
        matching_diagnostics::failure_name(StopAlignmentFailureKind::UnknownSiriStopIds)
            == "unknown_siri_stop_ids"@,
        matching_diagnostics::failure_name(StopAlignmentFailureKind::ConsecutiveDuplicateCalls)
            == "consecutive_duplicate_calls"@,
        matching_diagnostics::failure_name(StopAlignmentFailureKind::DestinationFilterMismatch)
            == "destination_filter_mismatch"@,
        matching_diagnostics::failure_name(StopAlignmentFailureKind::AllStopsKnownButWrongOrder)
            == "all_stops_known_but_wrong_order"@,
        matching_diagnostics::failure_name(StopAlignmentFailureKind::PartialAlignment90Percent)
            == "partial_alignment_90_percent"@,
        matching_diagnostics::failure_name(
            StopAlignmentFailureKind::PartialAlignmentBelow90Percent,
        ) == "partial_alignment_below_90_percent"@,
        matching_diagnostics::failure_name(StopAlignmentFailureKind::NoStopAlignment)
            == "no_stop_alignment"@,
        matching::reason_name(MatchMissReason::NoObservedCalls) == "no_observed_calls"@,
        matching::reason_name(MatchMissReason::NoUsableTimes) == "no_usable_times"@,
        matching::reason_name(MatchMissReason::MissingLineRef) == "missing_or_invalid_line_ref"@,
        matching::reason_name(MatchMissReason::RouteNotFound) == "route_not_found"@,
        matching::reason_name(MatchMissReason::NoStopAlignment) == "no_stop_alignment"@,
        matching::reason_name(MatchMissReason::InactiveServiceDate) == "inactive_service_date"@,
        matching::reason_name(MatchMissReason::NoTimeComparisons) == "no_time_comparisons"@,
{
}

/// Whether stops are those of a trip of which `of` holds.
pub open spec fn is_run_by_one(
    stops: Seq<Seq<char>>,
    schedule: Gtfs,
    of: spec_fn(Seq<char>) -> bool,
) -> bool {
    exists|id: Seq<char>| #[trigger] of(id) && gtfs::trip_stops(schedule.trips@[id]) == stops
}

/// Whether patterns are those of the trips of which `of` holds.
pub open spec fn are_stops_of(
    patterns: Seq<Seq<Seq<char>>>,
    schedule: Gtfs,
    of: spec_fn(Seq<char>) -> bool,
) -> bool {
    &&& forall|p: int|
        0 <= p < patterns.len() ==> is_run_by_one(#[trigger] patterns[p], schedule, of)
    &&& forall|id: Seq<char>| #[trigger]
        of(id) ==> patterns.contains(gtfs::trip_stops(schedule.trips@[id]))
}

/// Which trips are of a line and have stops.
pub open spec fn of_line(schedule: Gtfs, route: Seq<char>) -> spec_fn(Seq<char>) -> bool {
    |id: Seq<char>| strict_laws::is_on_route(schedule, route, id)
}

/// Which trips are sought.
pub open spec fn of_aim(
    index: GtfsMatchIndex,
    schedule: Gtfs,
    route: Seq<char>,
    to: Seq<Seq<char>>,
) -> spec_fn(Seq<char>) -> bool {
    |id: Seq<char>| strict_laws::is_sought(index, schedule, route, to, id)
}

/// The law of diagnosed journeys: a journey is diagnosed exactly if it calls at a known stop and
/// its line has trips with stops, and then by the first stop that each of its calls may mean: held
/// against the trips that are sought, and against all of its line.
pub proof fn journeys_are_diagnosed_by_their_line(
    index: GtfsMatchIndex,
    schedule: Gtfs,
    journey: Journey,
    d: StopAlignmentDiagnostics,
)
    requires
        matching::is_index_of(index, schedule),
    ensures
        index.can_diagnose(journey) <==> index.observed(journey).len() > 0 && matching::route_of(
            journey,
        ) is Some && exists|id: Seq<char>| #[trigger]
            strict_laws::is_on_route(schedule, matching::route_of(journey)->0, id),
        index.can_diagnose(journey) && index.is_diagnosis(d, journey) ==> exists|
            observed: Seq<Seq<char>>,
            candidates: Seq<Seq<Seq<char>>>,
            all: Seq<Seq<Seq<char>>>,
            filtered: bool,
        |
            {
                let route = matching::route_of(journey)->0;
                let to = strict_laws::stops_of_destination(index, journey);
                let calls = index.observed(journey);
                &&& #[trigger] matching_diagnostics::is_diagnosis(
                    d,
                    observed,
                    candidates,
                    all,
                    index.canonical_stop_ids@,
                    filtered,
                )
                &&& observed.len() == calls.len()
                &&& forall|i: int|
                    0 <= i < calls.len() && calls[i].aliases.len() > 0 ==> #[trigger] observed[i]
                        == calls[i].aliases[0]
                &&& are_stops_of(
                    candidates,
                    schedule,
                    of_aim(index, schedule, route, to),
                )
                &&& are_stops_of(
                    all,
                    schedule,
                    of_line(schedule, route),
                )
                &&& filtered <==> exists|id: Seq<char>| #[trigger]
                    strict_laws::is_on_route(schedule, route, id) && !strict_laws::is_sought(
                        index,
                        schedule,
                        route,
                        to,
                        id,
                    )
            },
{
    if let Some(route) = matching::route_of(journey) {
        let patterns = directions::patterns_at(index.directions@, route);
        if index.directions@.contains_key(route) {
            let id = patterns[0].trips[0];
            strict_laws::trips_of_pattern(index, schedule, route, 0, id);
            assert(patterns[0].trips.contains(id));
            assert(strict_laws::is_on_route(schedule, route, id));
        }
        if exists|id: Seq<char>| #[trigger] strict_laws::is_on_route(schedule, route, id) {
            let id = choose|id: Seq<char>| #[trigger]
                strict_laws::is_on_route(schedule, route, id);
            let p = strict_laws::pattern_of_trip(index, schedule, route, id);
            assert(patterns.len() > 0);
        }
        if index.can_diagnose(journey) && index.is_diagnosis(d, journey) {
            let to = strict_laws::stops_of_destination(index, journey);
            assert(to == matching::destinations_of(index, journey));
            let aimed = matching::aimed_patterns(index, patterns, to);
            let observed = matching::first_aliases(index.observed(journey));
            let sought = of_aim(index, schedule, route, to);
            let on_route = of_line(schedule, route);
            stops_of_sought(index, schedule, route, to);
            stops_of_line(index, schedule, route);
            aimed_are_fewer(index, schedule, route, to);
            assert(are_stops_of(matching::stops_of(aimed), schedule, sought));
            assert(are_stops_of(matching::stops_of(patterns), schedule, on_route));
            assert(matching_diagnostics::is_diagnosis(
                d,
                observed,
                matching::stops_of(aimed),
                matching::stops_of(patterns),
                index.canonical_stop_ids@,
                aimed.len() < patterns.len(),
            ));
        }
    }
}

proof fn stops_of_line(index: GtfsMatchIndex, schedule: Gtfs, route: Seq<char>)
    requires
        matching::is_index_of(index, schedule),
    ensures
        are_stops_of(
            matching::stops_of(directions::patterns_at(index.directions@, route)),
            schedule,
            of_line(schedule, route),
        ),
{
    let patterns = directions::patterns_at(index.directions@, route);
    let listed = matching::stops_of(patterns);
    let of = of_line(schedule, route);
    assert forall|p: int| 0 <= p < listed.len() implies is_run_by_one(
        #[trigger] listed[p],
        schedule,
        of,
    ) by {
        let id = patterns[p].trips[0];
        strict_laws::trips_of_pattern(index, schedule, route, p, id);
        assert(patterns[p].trips.contains(id));
        assert(of(id) && gtfs::trip_stops(schedule.trips@[id]) == patterns[p].stops);
    }
    assert forall|id: Seq<char>| #[trigger] of(id) implies listed.contains(
        gtfs::trip_stops(schedule.trips@[id]),
    ) by {
        let p = strict_laws::pattern_of_trip(index, schedule, route, id);
        assert(listed[p] == patterns[p].stops);
    }
}

proof fn stops_of_sought(
    index: GtfsMatchIndex,
    schedule: Gtfs,
    route: Seq<char>,
    to: Seq<Seq<char>>,
)
    requires
        matching::is_index_of(index, schedule),
    ensures
        are_stops_of(
            matching::stops_of(
                matching::aimed_patterns(
                    index,
                    directions::patterns_at(index.directions@, route),
                    to,
                ),
            ),
            schedule,
            of_aim(index, schedule, route, to),
        ),
{
    let patterns = directions::patterns_at(index.directions@, route);
    let aimed = matching::aimed_patterns(index, patterns, to);
    let listed = matching::stops_of(aimed);
    let of = of_aim(index, schedule, route, to);
    assert forall|a: int| 0 <= a < listed.len() implies is_run_by_one(
        #[trigger] listed[a],
        schedule,
        of,
    ) by {
        matching_laws::aimed_are_patterns(index, patterns, to, a);
        let p = choose|p: int| 0 <= p < patterns.len() && patterns[p] == aimed[a];
        let id = patterns[p].trips[0];
        strict_laws::trips_of_pattern(index, schedule, route, p, id);
        assert(patterns[p].trips.contains(id));
        assert(aimed.contains(aimed[a]));
        strict_laws::aimed_are_sought(index, schedule, route, to, p, id);
        assert(of(id) && gtfs::trip_stops(schedule.trips@[id]) == patterns[p].stops);
    }
    assert forall|id: Seq<char>| #[trigger] of(id) implies listed.contains(
        gtfs::trip_stops(schedule.trips@[id]),
    ) by {
        let p = strict_laws::pattern_of_trip(index, schedule, route, id);
        strict_laws::aimed_are_sought(index, schedule, route, to, p, id);
        let a = choose|a: int| 0 <= a < aimed.len() && aimed[a] == patterns[p];
        assert(listed[a] == aimed[a].stops);
    }
}

proof fn filter_is_shorter<A>(s: Seq<A>, f: spec_fn(A) -> bool)
    ensures
        s.filter(f).len() <= s.len(),
        s.filter(f).len() == s.len() ==> s.filter(f) == s,
        s.filter(f).len() < s.len() ==> exists|i: int| 0 <= i < s.len() && !f(#[trigger] s[i]),
    decreases s.len(),
{
    reveal(Seq::filter);
    if s.len() > 0 {
        let rest = s.drop_last();
        let n = rest.len() as int;
        filter_is_shorter(rest, f);
        assert(s[n] == s.last());
        if !f(s.last()) {
            assert(!f(s[n]));
        } else {
            if rest.filter(f).len() < rest.len() {
                let i = choose|i: int| 0 <= i < rest.len() && !f(#[trigger] rest[i]);
                assert(!f(s[i]));
            } else {
                assert(rest.filter(f).push(s.last()) =~= s);
            }
        }
    }
}

proof fn aimed_are_fewer(
    index: GtfsMatchIndex,
    schedule: Gtfs,
    route: Seq<char>,
    to: Seq<Seq<char>>,
)
    requires
        matching::is_index_of(index, schedule),
    ensures
        ({
            let patterns = directions::patterns_at(index.directions@, route);
            matching::aimed_patterns(index, patterns, to).len() < patterns.len()
        }) <==> exists|id: Seq<char>| #[trigger]
            strict_laws::is_on_route(schedule, route, id) && !strict_laws::is_sought(
                index,
                schedule,
                route,
                to,
                id,
            ),
{
    let patterns = directions::patterns_at(index.directions@, route);
    let aimed = matching::aimed_patterns(index, patterns, to);
    let exact = matching::ends_exactly(to);
    let nearby = matching::ends_nearby(index, to);
    filter_is_shorter(patterns, exact);
    filter_is_shorter(patterns, nearby);
    if aimed.len() < patterns.len() {
        let f = if patterns.filter(exact).len() > 0 {
            exact
        } else {
            nearby
        };
        assert(aimed == patterns.filter(f));
        let p = choose|p: int| 0 <= p < patterns.len() && !f(#[trigger] patterns[p]);
        let id = patterns[p].trips[0];
        strict_laws::trips_of_pattern(index, schedule, route, p, id);
        assert(patterns[p].trips.contains(id));
        strict_laws::filtered(patterns, f, patterns[p]);
        strict_laws::aimed_are_sought(index, schedule, route, to, p, id);
        assert(strict_laws::is_on_route(schedule, route, id));
    }
    if exists|id: Seq<char>| #[trigger]
        strict_laws::is_on_route(schedule, route, id) && !strict_laws::is_sought(
            index,
            schedule,
            route,
            to,
            id,
        ) {
        let id = choose|id: Seq<char>| #[trigger]
            strict_laws::is_on_route(schedule, route, id) && !strict_laws::is_sought(
                index,
                schedule,
                route,
                to,
                id,
            );
        let p = strict_laws::pattern_of_trip(index, schedule, route, id);
        strict_laws::aimed_are_sought(index, schedule, route, to, p, id);
        assert(patterns.contains(patterns[p]));
        if aimed.len() >= patterns.len() {
            assert(aimed == patterns);
        }
    }
}

} // verus!
