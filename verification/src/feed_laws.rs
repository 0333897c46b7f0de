//! What holds of the entries of the feed, call by call, and of the platforms.

use crate::clock;
use crate::enhanced_processor;
use crate::feed::{Entry, FeedEntity, StopTimeUpdate, Visit};
use crate::gtfs::{Gtfs, Trip};
use crate::matching::{self, Match, MatchKind};
use crate::processor;
use crate::siri_models::{EstimatedCall, EstimatedVehicleJourney, Journey, ValueWrapper};
use crate::state::LoadedGtfs;
use crate::text;
use vstd::prelude::*;

verus! {

/// Whether two characters are the same, or the same letter of ASCII in two cases.
pub open spec fn same_letter(a: char, b: char) -> bool {
    ||| a == b
    ||| 'A' <= a <= 'Z' && b as int == a as int + 32
    ||| 'A' <= b <= 'Z' && a as int == b as int + 32
}

/// Whether two texts are the same letter by letter.
pub open spec fn same_letters(a: Seq<char>, b: Seq<char>) -> bool {
    a.len() == b.len() && forall|i: int|
        #![trigger a[i]]
        #![trigger b[i]]
        0 <= i < a.len() ==> same_letter(a[i], b[i])
}

/// The law of case: texts count as equal exactly if they are the same letter by letter.
pub proof fn case_does_not_matter(a: Seq<char>, b: Seq<char>)
    ensures
        text::equal_but_for_case(a, b) <==> same_letters(a, b),
{
    assert forall|x: char, y: char| same_letter(x, y) <==> #[trigger] text::folded(x)
        == #[trigger] text::folded(y) by {}
    if text::equal_but_for_case(a, b) {
        assert forall|i: int| #![trigger a[i]] #![trigger b[i]] 0 <= i < a.len() implies same_letter(
            a[i],
            b[i],
        ) by {
            assert(text::folded(a[i]) == text::folded(b[i]));
        }
    }
    if same_letters(a, b) {
        assert forall|i: int| 0 <= i < a.len() implies #[trigger] text::folded(a[i])
            == text::folded(b[i]) by {
            assert(same_letter(a[i], b[i]));
        }
    }
}

/// Whether a status says that a call is cancelled.
pub open spec fn says_cancelled(status: Option<String>) -> bool {
    status is Some && (same_letters(status->0@, "CANCELLED"@) || same_letters(
        status->0@,
        "CANCELED"@,
    ))
}

/// Whether a time is the one to tell: the expected one if one is given, else the aimed one, as far
/// as it can be read.
pub open spec fn is_told(expected: Option<String>, aimed: Option<String>, time: Option<i64>) -> bool {
    match (expected, aimed) {
        (Some(value), _) => time == clock::rfc3339_timestamp(value@),
        (None, Some(value)) => time == clock::rfc3339_timestamp(value@),
        (None, None) => time is None,
    }
}

/// Whether a visit says what a call says: its times, and whether it is cancelled.
pub open spec fn tells(call: EstimatedCall, visit: Visit) -> bool {
    &&& is_told(call.expected_arrival_time, call.aimed_arrival_time, visit.arrival)
    &&& is_told(call.expected_departure_time, call.aimed_departure_time, visit.departure)
    &&& visit.skipped <==> says_cancelled(call.arrival_status) || says_cancelled(
        call.departure_status,
    )
}

/// The law of visits: one says what its call says, of the stop that the call is put at.
pub proof fn visits_tell_their_calls(call: EstimatedCall, stop: Seq<char>)
    ensures
        tells(call, processor::visit_of(call, stop)),
        processor::visit_of(call, stop).stop == stop,
{
    if let Some(status) = call.arrival_status {
        case_does_not_matter(status@, "CANCELLED"@);
        case_does_not_matter(status@, "CANCELED"@);
    }
    if let Some(status) = call.departure_status {
        case_does_not_matter(status@, "CANCELLED"@);
        case_does_not_matter(status@, "CANCELED"@);
    }
}

/// Whether `from` lists, in order, the numbers below `n` of which `p` holds.
pub open spec fn is_listing(from: Seq<int>, n: int, p: spec_fn(int) -> bool) -> bool {
    &&& forall|k: int| 0 <= k < from.len() ==> 0 <= #[trigger] from[k] < n && p(from[k])
    &&& forall|k: int, l: int|
        0 <= k < l < from.len() ==> #[trigger] from[k] < #[trigger] from[l]
    &&& forall|j: int| 0 <= j < n && #[trigger] p(j) ==> from.contains(j)
}

/// A listing with one number more.
pub proof fn listing_grows(
    from: Seq<int>,
    n: int,
    p: spec_fn(int) -> bool,
    q: spec_fn(int) -> bool,
) -> (r: Seq<int>)
    requires
        n >= 0,
        is_listing(from, n, p),
        forall|j: int| 0 <= j < n ==> (#[trigger] q(j) <==> p(j)),
    ensures
        is_listing(r, n + 1, q),
        q(n) ==> r == from.push(n),
        !q(n) ==> r == from,
{
    if q(n) {
        let r = from.push(n);
        assert forall|j: int| 0 <= j < n + 1 && #[trigger] q(j) implies r.contains(j) by {
            if j < n {
                assert(p(j));
                let k = choose|k: int| 0 <= k < from.len() && from[k] == j;
                assert(r[k] == j);
            } else {
                assert(r[from.len() as int] == n);
            }
        }
        assert forall|k: int| 0 <= k < r.len() implies 0 <= #[trigger] r[k] < n + 1 && q(r[k]) by {
            if k < from.len() {
                assert(r[k] == from[k]);
                assert(p(from[k]));
            }
        }
        assert forall|k: int, l: int| 0 <= k < l < r.len() implies #[trigger] r[k] < #[trigger] r[l] by {
            assert(r[k] == from[k]);
            if l < from.len() {
                assert(r[l] == from[l]);
            }
        }
        r
    } else {
        assert forall|j: int| 0 <= j < n + 1 && #[trigger] q(j) implies from.contains(j) by {
            assert(p(j));
        }
        assert forall|k: int| 0 <= k < from.len() implies 0 <= #[trigger] from[k] < n + 1 && q(
            from[k],
        ) by {
            assert(p(from[k]));
        }
        from
    }
}

/// Which stop of a trip a match gives a call that is observed after `k` others.
pub open spec fn seat_after(trip: Option<Trip>, at: Seq<usize>, k: int) -> Option<int> {
    if trip is Some && k < at.len() && at[k] < trip->0.stop_times@.len() {
        Some(at[k] as int)
    } else {
        None
    }
}

/// How many calls in front of a call are observed.
pub open spec fn observed_before(
    calls: Seq<EstimatedCall>,
    index: Map<Seq<char>, Vec<String>>,
    j: int,
) -> int {
    matching::observed_of(calls.take(j), index).len() as int
}

/// Which calls of a strictly matched journey are told: those at known stops to which the match
/// gives a stop of the trip.
pub open spec fn is_published(
    calls: Seq<EstimatedCall>,
    index: Map<Seq<char>, Vec<String>>,
    trip: Option<Trip>,
    at: Seq<usize>,
) -> spec_fn(int) -> bool {
    |j: int|
        matching::observed_call(calls[j], index) is Some && seat_after(
            trip,
            at,
            observed_before(calls, index, j),
        ) is Some
}

/// Whether visits are those of the calls in `from`, each at the stop that the match gives it.
pub open spec fn are_visits_of(
    visits: Seq<Visit>,
    calls: Seq<EstimatedCall>,
    index: Map<Seq<char>, Vec<String>>,
    trip: Option<Trip>,
    at: Seq<usize>,
    from: Seq<int>,
) -> bool {
    &&& is_listing(from, calls.len() as int, is_published(calls, index, trip, at))
    &&& visits.len() == from.len()
    &&& forall|k: int|
        0 <= k < visits.len() ==> tells(calls[from[k]], #[trigger] visits[k]) && visits[k].stop
            == trip->0.stop_times@[seat_after(
            trip,
            at,
            observed_before(calls, index, from[k]),
        )->0].stop_id@
}

proof fn visits_of_calls(
    calls: Seq<EstimatedCall>,
    index: Map<Seq<char>, Vec<String>>,
    trip: Option<Trip>,
    at: Seq<usize>,
) -> (from: Seq<int>)
    ensures
        are_visits_of(
            processor::matched_visits(calls, index, trip, at),
            calls,
            index,
            trip,
            at,
            from,
        ),
    decreases calls.len(),
{
    let q = is_published(calls, index, trip, at);
    if calls.len() == 0 {
        seq![]
    } else {
        let rest = calls.drop_last();
        let n = rest.len() as int;
        let front = processor::matched_visits(rest, index, trip, at);
        let all = processor::matched_visits(calls, index, trip, at);
        let before = visits_of_calls(rest, index, trip, at);
        let p = is_published(rest, index, trip, at);
        assert forall|j: int| 0 <= j <= n implies #[trigger] calls.take(j) == rest.take(j) by {
            assert(calls.take(j) =~= rest.take(j));
        }
        assert forall|j: int| 0 <= j < n implies (#[trigger] q(j) <==> p(j)) by {
            assert(calls.take(j) == rest.take(j));
        }
        assert(calls.take(n) =~= rest);
        let from = listing_grows(before, n, p, q);
        assert forall|k: int| 0 <= k < all.len() implies tells(
            calls[from[k]],
            #[trigger] all[k],
        ) && all[k].stop == trip->0.stop_times@[seat_after(
            trip,
            at,
            observed_before(calls, index, from[k]),
        )->0].stop_id@ by {
            if k < front.len() {
                assert(all[k] == front[k]);
                assert(from[k] == before[k]);
                assert(calls.take(from[k]) == rest.take(from[k]));
            } else {
                let stop = processor::last_stop(calls, index, trip, at)->0;
                visits_tell_their_calls(calls.last(), stop);
            }
        }
        from
    }
}

/// The law of strict updates: the visits of a matched journey are, in order, those of its calls at
/// known stops to which the match gives a stop of the trip, and each says what its call says: the
/// expected times, else the aimed ones, and that it is left out exactly if the call is cancelled.
pub proof fn strict_updates_tell_their_calls(
    calls: Seq<EstimatedCall>,
    index: Map<Seq<char>, Vec<String>>,
    trip: Option<Trip>,
    at: Seq<usize>,
)
    ensures
        exists|from: Seq<int>| #[trigger]
            are_visits_of(
                processor::matched_visits(calls, index, trip, at),
                calls,
                index,
                trip,
                at,
                from,
            ),
{
    let from = visits_of_calls(calls, index, trip, at);
}

/// Whether an entry is that of a trip of the schedule on a service day.
pub open spec fn is_entry_of(entry: Entry, trip_id: Seq<char>, day: Option<i32>) -> bool {
    &&& entry.id == trip_id
    &&& entry.trip == trip_id
    &&& day is None ==> entry.start is None
    &&& day matches Some(d) ==> entry.start == clock::day_digits(d)
    &&& entry.route is None
    &&& !entry.added
}

/// The trip that a schedule has under an identifier.
pub open spec fn trip_under(schedule: Gtfs, id: Seq<char>) -> Option<Trip> {
    if schedule.trips@.contains_key(id) {
        Some(schedule.trips@[id])
    } else {
        None
    }
}

/// Whether an entry tells a journey that has a strict match.
pub open spec fn is_strict_entry(
    loaded: LoadedGtfs,
    journey: EstimatedVehicleJourney,
    entry: Entry,
) -> bool {
    let sorted = processor::in_time_order(journey@);
    let index = loaded.match_index.stop_ids_by_suffix@;
    match loaded.match_index.journey_match(loaded.gtfs, sorted) {
        Ok(found) => {
            let trip = trip_under(loaded.gtfs, found.trip_id);
            &&& is_entry_of(entry, found.trip_id, found.day)
            &&& exists|from: Seq<int>| #[trigger]
                are_visits_of(entry.visits, sorted.calls, index, trip, found.at, from)
        },
        Err(_) => false,
    }
}

/// Which journeys have a strict match.
pub open spec fn has_strict_match(
    loaded: LoadedGtfs,
    journeys: Seq<EstimatedVehicleJourney>,
) -> spec_fn(int) -> bool {
    |j: int|
        loaded.match_index.journey_match(
            loaded.gtfs,
            processor::in_time_order(journeys[j]@),
        ) is Ok
}

/// Whether entries tell the journeys in `from`.
pub open spec fn are_entries_of(
    loaded: LoadedGtfs,
    journeys: Seq<EstimatedVehicleJourney>,
    entries: Seq<Entry>,
    from: Seq<int>,
) -> bool {
    &&& is_listing(from, journeys.len() as int, has_strict_match(loaded, journeys))
    &&& entries.len() == from.len()
    &&& forall|k: int|
        0 <= k < entries.len() ==> is_strict_entry(
            loaded,
            journeys[from[k]],
            #[trigger] entries[k],
        )
}

proof fn entries_of_journeys(
    loaded: LoadedGtfs,
    journeys: Seq<EstimatedVehicleJourney>,
) -> (from: Seq<int>)
    ensures
        are_entries_of(loaded, journeys, processor::report_of(loaded, journeys).entries, from),
    decreases journeys.len(),
{
    if journeys.len() == 0 {
        seq![]
    } else {
        let rest = journeys.drop_last();
        let n = rest.len() as int;
        let before = entries_of_journeys(loaded, rest);
        let p = has_strict_match(loaded, rest);
        let q = has_strict_match(loaded, journeys);
        let front = processor::report_of(loaded, rest).entries;
        let all = processor::report_of(loaded, journeys).entries;
        let from = listing_grows(before, n, p, q);
        assert forall|k: int| 0 <= k < all.len() implies is_strict_entry(
            loaded,
            journeys[from[k]],
            #[trigger] all[k],
        ) by {
            if k < front.len() {
                assert(all[k] == front[k]);
                assert(from[k] == before[k]);
                assert(journeys[from[k]] == rest[before[k]]);
                assert(is_strict_entry(loaded, rest[before[k]], front[k]));
            } else {
                assert(q(n));
                assert(from[k] == n);
                let sorted = processor::in_time_order(journeys.last()@);
                let found = loaded.match_index.journey_match(loaded.gtfs, sorted)->Ok_0;
                let index = loaded.match_index.stop_ids_by_suffix@;
                let trip = trip_under(loaded.gtfs, found.trip_id);
                assert(trip == processor::trip_of(loaded.gtfs, found.trip_id));
                let told = visits_of_calls(sorted.calls, index, trip, found.at);
                assert(are_visits_of(all[k].visits, sorted.calls, index, trip, found.at, told));
                assert(journeys[from[k]] == journeys.last());
            }
        }
        from
    }
}

/// The law of the strict feed: its entries tell, in order, the journeys that have a strict match,
/// each under the trip and the service day of its match.
pub proof fn strict_entries_tell_their_journeys(
    loaded: LoadedGtfs,
    journeys: Seq<EstimatedVehicleJourney>,
)
    ensures
        exists|from: Seq<int>| #[trigger]
            are_entries_of(loaded, journeys, processor::report_of(loaded, journeys).entries, from),
{
    let from = entries_of_journeys(loaded, journeys);
}

/// Which calls of a recovered journey are told: those to which the match gives a stop of the trip.
pub open spec fn is_seated(trip: Trip, at: Seq<usize>) -> spec_fn(int) -> bool {
    |j: int| j < at.len() && at[j] != usize::MAX && at[j] < trip.stop_times@.len()
}

/// Whether visits are those of the seated calls in `from`.
pub open spec fn are_seated_visits(
    visits: Seq<Visit>,
    calls: Seq<EstimatedCall>,
    trip: Trip,
    at: Seq<usize>,
    from: Seq<int>,
) -> bool {
    &&& is_listing(from, calls.len() as int, is_seated(trip, at))
    &&& visits.len() == from.len()
    &&& forall|k: int|
        0 <= k < visits.len() ==> tells(calls[from[k]], #[trigger] visits[k]) && visits[k].stop
            == trip.stop_times@[at[from[k]] as int].stop_id@
}

proof fn visits_of_seated(
    calls: Seq<EstimatedCall>,
    trip: Trip,
    at: Seq<usize>,
) -> (from: Seq<int>)
    ensures
        are_seated_visits(
            enhanced_processor::seated_visits(calls, trip, at),
            calls,
            trip,
            at,
            from,
        ),
    decreases calls.len(),
{
    let q = is_seated(trip, at);
    if calls.len() == 0 {
        seq![]
    } else {
        let rest = calls.drop_last();
        let n = rest.len() as int;
        let front = enhanced_processor::seated_visits(rest, trip, at);
        let all = enhanced_processor::seated_visits(calls, trip, at);
        let before = visits_of_seated(rest, trip, at);
        let from = listing_grows(before, n, q, q);
        assert forall|k: int| 0 <= k < all.len() implies tells(
            calls[from[k]],
            #[trigger] all[k],
        ) && all[k].stop == trip.stop_times@[at[from[k]] as int].stop_id@ by {
            if k < front.len() {
                assert(all[k] == front[k]);
                assert(from[k] == before[k]);
            } else {
                visits_tell_their_calls(
                    calls.last(),
                    enhanced_processor::seat_of(trip, at, n)->0,
                );
            }
        }
        from
    }
}

/// The law of recovered updates: the visits of a recovered journey are, in order, those of its
/// calls to which the match gives a stop of the trip, and each says what its call says: the
/// expected times, else the aimed ones, and that it is left out exactly if the call is cancelled.
pub proof fn recovered_updates_tell_their_calls(
    calls: Seq<EstimatedCall>,
    trip: Trip,
    at: Seq<usize>,
)
    ensures
        exists|from: Seq<int>| #[trigger]
            are_seated_visits(
                enhanced_processor::seated_visits(calls, trip, at),
                calls,
                trip,
                at,
                from,
            ),
{
    let from = visits_of_seated(calls, trip, at);
}

/// The law of finds: a match makes one exactly if its trip is in the schedule and it gives a call a
/// stop of the trip; the find tells the calls with such stops, under the trip and the service day
/// of the match.
pub proof fn finds_tell_their_journeys(schedule: Gtfs, journey: Journey, found: Match)
    ensures
        enhanced_processor::find_of(schedule, journey, found) is Some
            <==> schedule.trips@.contains_key(found.trip_id) && exists|j: int|
            0 <= j < journey.calls.len() && #[trigger] is_seated(
                schedule.trips@[found.trip_id],
                found.at,
            )(j),
        enhanced_processor::find_of(schedule, journey, found) matches Some(find) ==> {
            &&& is_entry_of(find.entry, found.trip_id, found.day)
            &&& exists|from: Seq<int>| #[trigger]
                are_seated_visits(
                    find.entry.visits,
                    journey.calls,
                    schedule.trips@[found.trip_id],
                    found.at,
                    from,
                )
        },
{
    if schedule.trips@.contains_key(found.trip_id) {
        let trip = schedule.trips@[found.trip_id];
        let p = is_seated(trip, found.at);
        let visits = enhanced_processor::seated_visits(journey.calls, trip, found.at);
        let from = visits_of_seated(journey.calls, trip, found.at);
        if visits.len() > 0 {
            assert(p(from[0]));
            let find = enhanced_processor::find_of(schedule, journey, found)->0;
            assert(are_seated_visits(find.entry.visits, journey.calls, trip, found.at, from));
        }
        if exists|j: int| 0 <= j < journey.calls.len() && #[trigger] p(j) {
            let j = choose|j: int| 0 <= j < journey.calls.len() && #[trigger] p(j);
            assert(from.contains(j));
        }
    }
}

/// Whether `name` is the platform of a call: that of its departure if one is given, else that of
/// its arrival.
pub open spec fn is_platform(call: EstimatedCall, name: Option<Seq<char>>) -> bool {
    match (call.departure_platform_name, call.arrival_platform_name) {
        (Some(platform), _) => is_value(platform, name),
        (None, Some(platform)) => is_value(platform, name),
        (None, None) => name is None,
    }
}

/// Whether a reference holds the text, or none.
pub open spec fn is_value(reference: ValueWrapper, text: Option<Seq<char>>) -> bool {
    match reference.value {
        Some(value) => text == Some(value@),
        None => text is None,
    }
}

/// Which calls of a strictly matched journey name a platform: those that are told and name one that
/// is known.
pub open spec fn names_platform(
    calls: Seq<EstimatedCall>,
    index: Map<Seq<char>, Vec<String>>,
    trip: Option<Trip>,
    at: Seq<usize>,
) -> spec_fn(int) -> bool {
    |j: int|
        is_published(calls, index, trip, at)(j) && exists|name: Seq<char>| #[trigger]
            is_platform(calls[j], Some(name)) && name != "unknown"@
}

/// Whether platforms are those of the calls in `from`.
pub open spec fn are_platforms_of(
    platforms: Seq<(Seq<char>, Seq<char>)>,
    calls: Seq<EstimatedCall>,
    index: Map<Seq<char>, Vec<String>>,
    trip: Option<Trip>,
    at: Seq<usize>,
    from: Seq<int>,
) -> bool {
    &&& is_listing(from, calls.len() as int, names_platform(calls, index, trip, at))
    &&& platforms.len() == from.len()
    &&& forall|k: int|
        0 <= k < platforms.len() ==> is_platform(calls[from[k]], Some((#[trigger] platforms[k]).1))
            && platforms[k].0 == trip->0.stop_times@[seat_after(
            trip,
            at,
            observed_before(calls, index, from[k]),
        )->0].stop_id@
}

proof fn platforms_of_calls(
    calls: Seq<EstimatedCall>,
    index: Map<Seq<char>, Vec<String>>,
    trip: Option<Trip>,
    at: Seq<usize>,
) -> (from: Seq<int>)
    ensures
        are_platforms_of(
            processor::matched_platforms(calls, index, trip, at),
            calls,
            index,
            trip,
            at,
            from,
        ),
    decreases calls.len(),
{
    let q = names_platform(calls, index, trip, at);
    if calls.len() == 0 {
        seq![]
    } else {
        let rest = calls.drop_last();
        let n = rest.len() as int;
        let front = processor::matched_platforms(rest, index, trip, at);
        let all = processor::matched_platforms(calls, index, trip, at);
        let before = platforms_of_calls(rest, index, trip, at);
        let p = names_platform(rest, index, trip, at);
        assert forall|j: int| 0 <= j <= n implies #[trigger] calls.take(j) == rest.take(j) by {
            assert(calls.take(j) =~= rest.take(j));
        }
        assert forall|j: int| 0 <= j < n implies (#[trigger] q(j) <==> p(j)) by {
            assert(calls.take(j) == rest.take(j));
            assert(calls[j] == rest[j]);
        }
        assert(calls.take(n) =~= rest);
        assert(q(n) <==> processor::last_stop(calls, index, trip, at) is Some
            && processor::platform_of(calls.last()) is Some && processor::platform_of(
            calls.last(),
        )->0 != "unknown"@) by {
            if let Some(name) = processor::platform_of(calls.last()) {
                assert(is_platform(calls[n], Some(name)));
            }
        }
        let from = listing_grows(before, n, p, q);
        assert forall|k: int| 0 <= k < all.len() implies is_platform(
            calls[from[k]],
            Some((#[trigger] all[k]).1),
        ) && all[k].0 == trip->0.stop_times@[seat_after(
            trip,
            at,
            observed_before(calls, index, from[k]),
        )->0].stop_id@ by {
            if k < front.len() {
                assert(all[k] == front[k]);
                assert(from[k] == before[k]);
                assert(calls.take(from[k]) == rest.take(from[k]));
            }
        }
        from
    }
}

/// The law of strict platforms: they are, in order, those that the told calls name, each at the
/// stop that the match gives its call, but for the unknown one.
pub proof fn strict_platforms_are_named(
    calls: Seq<EstimatedCall>,
    index: Map<Seq<char>, Vec<String>>,
    trip: Option<Trip>,
    at: Seq<usize>,
)
    ensures
        exists|from: Seq<int>| #[trigger]
            are_platforms_of(
                processor::matched_platforms(calls, index, trip, at),
                calls,
                index,
                trip,
                at,
                from,
            ),
{
    let from = platforms_of_calls(calls, index, trip, at);
}

/// Which calls of a recovered journey name a platform.
pub open spec fn seated_names_platform(
    calls: Seq<EstimatedCall>,
    trip: Trip,
    at: Seq<usize>,
) -> spec_fn(int) -> bool {
    |j: int|
        is_seated(trip, at)(j) && exists|name: Seq<char>| #[trigger]
            is_platform(calls[j], Some(name)) && !same_letters(name, "unknown"@)
}

/// Whether platforms are those of the seated calls in `from`.
pub open spec fn are_seated_platforms(
    platforms: Seq<(Seq<char>, Seq<char>)>,
    calls: Seq<EstimatedCall>,
    trip: Trip,
    at: Seq<usize>,
    from: Seq<int>,
) -> bool {
    &&& is_listing(from, calls.len() as int, seated_names_platform(calls, trip, at))
    &&& platforms.len() == from.len()
    &&& forall|k: int|
        0 <= k < platforms.len() ==> is_platform(calls[from[k]], Some((#[trigger] platforms[k]).1))
            && platforms[k].0 == trip.stop_times@[at[from[k]] as int].stop_id@
}

proof fn platforms_of_seated(
    calls: Seq<EstimatedCall>,
    trip: Trip,
    at: Seq<usize>,
) -> (from: Seq<int>)
    ensures
        are_seated_platforms(
            enhanced_processor::seated_platforms(calls, trip, at),
            calls,
            trip,
            at,
            from,
        ),
    decreases calls.len(),
{
    let q = seated_names_platform(calls, trip, at);
    if calls.len() == 0 {
        seq![]
    } else {
        let rest = calls.drop_last();
        let n = rest.len() as int;
        let front = enhanced_processor::seated_platforms(rest, trip, at);
        let all = enhanced_processor::seated_platforms(calls, trip, at);
        let before = platforms_of_seated(rest, trip, at);
        let p = seated_names_platform(rest, trip, at);
        assert forall|j: int| 0 <= j < n implies (#[trigger] q(j) <==> p(j)) by {
            assert(calls[j] == rest[j]);
        }
        if let Some(name) = processor::platform_of(calls.last()) {
            assert(is_platform(calls[n], Some(name)));
            case_does_not_matter(name, "unknown"@);
        }
        let from = listing_grows(before, n, p, q);
        assert forall|k: int| 0 <= k < all.len() implies is_platform(
            calls[from[k]],
            Some((#[trigger] all[k]).1),
        ) && all[k].0 == trip.stop_times@[at[from[k]] as int].stop_id@ by {
            if k < front.len() {
                assert(all[k] == front[k]);
                assert(from[k] == before[k]);
            }
        }
        from
    }
}

/// The law of recovered platforms: they are, in order, those that the seated calls name, each at
/// the stop of its call, but for the unknown one in whatever case.
pub proof fn recovered_platforms_are_named(
    schedule: Gtfs,
    journey: Journey,
    found: Match,
)
    ensures
        enhanced_processor::find_of(schedule, journey, found) matches Some(find) ==> exists|
            from: Seq<int>,
        | #[trigger]
            are_seated_platforms(
                find.platforms,
                journey.calls,
                schedule.trips@[found.trip_id],
                found.at,
                from,
            ),
{
    if schedule.trips@.contains_key(found.trip_id) {
        let trip = schedule.trips@[found.trip_id];
        let from = platforms_of_seated(journey.calls, trip, found.at);
        if let Some(find) = enhanced_processor::find_of(schedule, journey, found) {
            assert(are_seated_platforms(find.platforms, journey.calls, trip, found.at, from));
        }
    }
}

/// The law of kept platforms: after one journey more, its trip has the platforms that it names, if
/// it is matched and names any; all other trips keep theirs.
pub proof fn platforms_are_kept_by_trip(
    rows: Map<Seq<char>, Seq<(Seq<char>, Seq<char>)>>,
    loaded: LoadedGtfs,
    journeys: Seq<EstimatedVehicleJourney>,
    journey: EstimatedVehicleJourney,
)
    ensures
        ({
            let sorted = processor::in_time_order(journey@);
            let before = processor::rows_after(rows, loaded, journeys);
            let after = processor::rows_after(rows, loaded, journeys.push(journey));
            match loaded.match_index.journey_match(loaded.gtfs, sorted) {
                Ok(found) => {
                    let trip = trip_under(loaded.gtfs, found.trip_id);
                    let named = processor::matched_platforms(
                        sorted.calls,
                        loaded.match_index.stop_ids_by_suffix@,
                        trip,
                        found.at,
                    );
                    &&& named.len() == 0 ==> after == before
                    &&& named.len() > 0 ==> after == before.insert(found.trip_id, named)
                },
                Err(_) => after == before,
            }
        }),
        processor::rows_after(rows, loaded, seq![]) == rows,
{
    assert(journeys.push(journey).drop_last() =~= journeys);
}

/// The law of the numbers: each journey counts once, by the kind of its match or as missed, and its
/// mean difference adds to the total.
pub proof fn each_journey_counts_once(
    loaded: LoadedGtfs,
    journeys: Seq<EstimatedVehicleJourney>,
    journey: EstimatedVehicleJourney,
)
    ensures
        ({
            let a = processor::report_of(loaded, journeys);
            let b = processor::report_of(loaded, journeys.push(journey));
            match loaded.match_index.journey_match(
                loaded.gtfs,
                processor::in_time_order(journey@),
            ) {
                Ok(found) => {
                    &&& b.missed == a.missed
                    &&& b.reasons == a.reasons
                    &&& b.examples == a.examples
                    &&& b.named_only == a.named_only
                    &&& b.entries.len() == a.entries.len() + 1
                    &&& b.entries.take(a.entries.len() as int) == a.entries
                    &&& found.kind == MatchKind::ExactId ==> b.exact == a.exact + 1
                        && b.by_direction == a.by_direction
                    &&& found.kind == MatchKind::DirectionAndTime ==> b.exact == a.exact
                        && b.by_direction == a.by_direction + 1
                    &&& found.by_station ==> b.by_station == a.by_station + 1
                    &&& !found.by_station ==> b.by_station == a.by_station
                    &&& found.mean matches Some(mean) ==> b.scored == a.scored + 1 && b.total
                        == a.total + mean
                    &&& found.mean is None ==> b.scored == a.scored && b.total == a.total
                },
                Err(reason) => {
                    let name = processor::miss_name(
                        loaded,
                        processor::in_time_order(journey@),
                        reason,
                    );
                    &&& b.missed == a.missed + 1
                    &&& b.entries == a.entries
                    &&& b.exact == a.exact
                    &&& b.by_direction == a.by_direction
                    &&& b.by_station == a.by_station
                    &&& b.scored == a.scored
                    &&& b.total == a.total
                    &&& b.reasons.contains_key(name)
                    &&& !a.reasons.contains_key(name) ==> b.reasons[name] == 1
                    &&& a.reasons.contains_key(name) && a.reasons[name] < usize::MAX
                        ==> b.reasons[name] == a.reasons[name] + 1
                    &&& forall|other: Seq<char>|
                        other != name ==> (b.reasons.contains_key(other)
                            <==> #[trigger] a.reasons.contains_key(other)) && (
                        a.reasons.contains_key(other) ==> b.reasons[other] == a.reasons[other])
                    &&& !a.reasons.contains_key(name) || a.reasons[name] < 20 ==> b.examples.len()
                        == a.examples.len() + 1 && b.examples.last().reason == name
                        && b.examples.last().original == reason && b.examples.last().journey
                        == processor::in_time_order(journey@)
                    &&& a.reasons.contains_key(name) && a.reasons[name] >= 20 ==> b.examples
                        == a.examples
                },
            }
        }),
{
    assert(journeys.push(journey).drop_last() =~= journeys);
    let a = processor::report_of(loaded, journeys);
    let b = processor::report_of(loaded, journeys.push(journey));
    assert(b.entries.take(a.entries.len() as int) =~= a.entries);
}

/// The law of the views: an update and an entry of the feed hold what is said of them.
pub proof fn entries_hold_what_is_said(update: StopTimeUpdate, entity: FeedEntity)
    ensures
        update@.stop == update.stop_id@,
        update@.arrival == update.arrival,
        update@.departure == update.departure,
        update@.skipped == update.skipped,
        entity@.id == entity.id@,
        entity@.trip == entity.trip_update.trip.trip_id@,
        entity@.start is Some <==> entity.trip_update.trip.start_date is Some,
        entity@.start matches Some(start) ==> start == entity.trip_update.trip.start_date->0@,
        entity@.route is Some <==> entity.trip_update.trip.route_id is Some,
        entity@.route matches Some(route) ==> route == entity.trip_update.trip.route_id->0@,
        entity@.added == entity.trip_update.trip.added,
        entity@.visits.len() == entity.trip_update.stop_time_update@.len(),
        forall|i: int|
            0 <= i < entity@.visits.len() ==> #[trigger] entity@.visits[i]
                == entity.trip_update.stop_time_update@[i]@,
{
}

} // verus!
