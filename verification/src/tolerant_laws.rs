//! What holds of the tolerant match: which trips it weighs, how it rates them, and which it takes.

use crate::adaptive_laws;
use crate::adaptive_matching::{self, DestinationMode, Rating, Sighting, Terms};
use crate::clock;
use crate::feed_laws;
use crate::gtfs::{Agency, Gtfs, Stop, StopTime, Trip};
use crate::matching::{self, Match, MatchKind};
use crate::siri_models::Journey;
use crate::stops;
use crate::table;
use crate::text;
use crate::time_laws;
use vstd::prelude::*;

verus! {

/// Whether a stop is one of a list of stops or has the station of one.
pub open spec fn is_near(all: Map<Seq<char>, Stop>, list: Seq<Seq<char>>, stop: Seq<char>) -> bool {
    exists|i: int|
        0 <= i < list.len() && (#[trigger] list[i] == stop || stops::top_parent_of(all, list[i])
            == stops::top_parent_of(all, stop))
}

/// The second of the service day at which a stop is due, if any.
pub open spec fn due_second(stop: StopTime) -> Option<u32> {
    if stop.departure_time is Some {
        stop.departure_time
    } else {
        stop.arrival_time
    }
}

/// The law of delays: a call has one at a stop exactly if it may be there, by the stop or by its
/// station, the stop is due on the day, and the nearest due moment is neither too late nor too
/// early for the window; it is then how long after that moment the call is.
pub proof fn delays_are_within_the_window(call: Sighting, stop: StopTime, terms: Terms, delay: int)
    ensures
        adaptive_matching::delay_at(call, stop, terms) == Some(delay) <==> {
            &&& is_near(terms.all, call.aliases, stop.stop_id@)
            &&& due_second(stop) is Some
            &&& clock::nearest_delay(
                call.moment as int,
                clock::scheduled_times(terms.day, due_second(stop)->0, terms.zone),
            ) == Some(delay)
            &&& terms.early <= delay <= terms.late
        },
{
    let list = call.aliases;
    if list.contains(stop.stop_id@) {
        let i = choose|i: int| 0 <= i < list.len() && list[i] == stop.stop_id@;
        assert(list[i] == stop.stop_id@);
    }
}

/// The law of spots: a call that is put at a stop is put there for the station alone exactly if the
/// stop is none that its reference may mean; and it is late or early by less at no stop in front of
/// it, nor by as little.
pub proof fn spots_are_the_first_of_the_nearest(
    call: Sighting,
    stop_times: Seq<StopTime>,
    terms: Terms,
)
    requires
        stop_times.len() <= usize::MAX,
    ensures
        adaptive_matching::spot_of(call, stop_times, terms) is Some <==> exists|k: int|
            0 <= k < stop_times.len() && adaptive_matching::delay_at(
                call,
                #[trigger] stop_times[k],
                terms,
            ) is Some,
        adaptive_matching::spot_of(call, stop_times, terms) matches Some(spot) ==> {
            &&& spot.stop < stop_times.len()
            &&& adaptive_matching::delay_at(call, stop_times[spot.stop as int], terms) == Some(
                spot.delay,
            )
            &&& spot.by_station <==> !call.aliases.contains(stop_times[spot.stop as int].stop_id@)
            &&& forall|k: int|
                0 <= k < stop_times.len() && adaptive_matching::delay_at(
                    call,
                    #[trigger] stop_times[k],
                    terms,
                ) is Some ==> {
                    let other = adaptive_matching::delay_at(call, stop_times[k], terms)->0;
                    &&& time_laws::apart(spot.delay, 0) <= time_laws::apart(other, 0)
                    &&& k < spot.stop ==> time_laws::apart(spot.delay, 0) < time_laws::apart(
                        other,
                        0,
                    )
                }
        },
    decreases stop_times.len(),
{
    if stop_times.len() > 0 {
        let front = stop_times.drop_last();
        let n = front.len() as int;
        spots_are_the_first_of_the_nearest(call, front, terms);
        assert forall|k: int| 0 <= k < n implies #[trigger] stop_times[k] == front[k] by {}
        assert(stop_times[n] == stop_times.last());
        if exists|k: int|
            0 <= k < front.len() && adaptive_matching::delay_at(
                call,
                #[trigger] front[k],
                terms,
            ) is Some {
            let k = choose|k: int|
                0 <= k < front.len() && adaptive_matching::delay_at(
                    call,
                    #[trigger] front[k],
                    terms,
                ) is Some;
            assert(adaptive_matching::delay_at(call, stop_times[k], terms) is Some);
        }
        if adaptive_matching::delay_at(call, stop_times[n], terms) is None {
            assert(forall|k: int|
                0 <= k < stop_times.len() && adaptive_matching::delay_at(
                    call,
                    #[trigger] stop_times[k],
                    terms,
                ) is Some ==> k < n && adaptive_matching::delay_at(call, front[k], terms) is Some);
        }
    }
}

/// The sum of the sizes of delays.
pub open spec fn sum_of_sizes(delays: Seq<i64>) -> int
    decreases delays.len(),
{
    if delays.len() == 0 {
        0
    } else {
        time_laws::apart(delays[0] as int, 0) + sum_of_sizes(delays.drop_first())
    }
}

proof fn total_is_the_sum(delays: Seq<i64>)
    ensures
        adaptive_matching::total_of(delays) == sum_of_sizes(delays),
    decreases delays.len(),
{
    reveal_with_fuel(adaptive_matching::total_of, 2);
    reveal_with_fuel(sum_of_sizes, 2);
    if delays.len() == 1 {
        assert(delays.last() == delays[0]);
        assert(delays.drop_last() =~= seq![]);
        assert(delays.drop_first() =~= seq![]);
    } else if delays.len() > 1 {
        let mid = delays.drop_first().drop_last();
        total_is_the_sum(delays.drop_first());
        total_is_the_sum(delays.drop_last());
        total_is_the_sum(mid);
        assert(delays.drop_last().drop_first() =~= mid);
        assert(delays.drop_first().last() == delays.last());
        assert(delays.drop_last()[0] == delays[0]);
    }
}

/// Which sightings are put at a stop.
pub open spec fn is_put(
    seen: Seq<Sighting>,
    stop_times: Seq<StopTime>,
    terms: Terms,
) -> spec_fn(int) -> bool {
    |k: int| adaptive_matching::spot_of(seen[k], stop_times, terms) is Some
}

/// Whether `delays` are those of the sightings in `from` where they are put.
pub open spec fn are_delays_of(
    delays: Seq<i64>,
    seen: Seq<Sighting>,
    stop_times: Seq<StopTime>,
    terms: Terms,
    from: Seq<int>,
) -> bool {
    &&& feed_laws::is_listing(from, seen.len() as int, is_put(seen, stop_times, terms))
    &&& delays.len() == from.len()
    &&& forall|i: int|
        0 <= i < delays.len() ==> #[trigger] delays[i] == adaptive_matching::spot_of(
            seen[from[i]],
            stop_times,
            terms,
        )->0.delay as i64
}

proof fn delays_of_seen(
    seen: Seq<Sighting>,
    stop_times: Seq<StopTime>,
    terms: Terms,
) -> (from: Seq<int>)
    ensures
        are_delays_of(
            adaptive_matching::delays_of(adaptive_matching::spots_of(seen, stop_times, terms)),
            seen,
            stop_times,
            terms,
            from,
        ),
    decreases seen.len(),
{
    let q = is_put(seen, stop_times, terms);
    let spots = adaptive_matching::spots_of(seen, stop_times, terms);
    if seen.len() == 0 {
        assert(spots =~= seq![]);
        seq![]
    } else {
        let rest = seen.drop_last();
        let n = rest.len() as int;
        let before = delays_of_seen(rest, stop_times, terms);
        let p = is_put(rest, stop_times, terms);
        let front = adaptive_matching::spots_of(rest, stop_times, terms);
        assert(spots.drop_last() =~= front);
        assert forall|j: int| 0 <= j < n implies (#[trigger] q(j) <==> p(j)) by {
            assert(seen[j] == rest[j]);
        }
        let from = feed_laws::listing_grows(before, n, p, q);
        let delays = adaptive_matching::delays_of(spots);
        let earlier = adaptive_matching::delays_of(front);
        assert forall|i: int| 0 <= i < delays.len() implies #[trigger] delays[i]
            == adaptive_matching::spot_of(seen[from[i]], stop_times, terms)->0.delay as i64 by {
            if i < earlier.len() {
                assert(delays[i] == earlier[i]);
                assert(from[i] == before[i]);
                assert(seen[from[i]] == rest[before[i]]);
            }
        }
        from
    }
}

/// Whether a rating is that of a trip on a day by the sightings in `from`, with their delays.
pub open spec fn is_rating_by(
    rating: Rating,
    trip: Trip,
    seen: Seq<Sighting>,
    terms: Terms,
    delays: Seq<i64>,
    from: Seq<int>,
) -> bool {
    &&& rating.trip_id == trip.id@
    &&& rating.day == terms.day
    &&& rating.matched == from.len()
    &&& rating.total == sum_of_sizes(delays)
    &&& rating.mean == sum_of_sizes(delays) / (from.len() as int)
    &&& forall|i: int|
        0 <= i < delays.len() ==> time_laws::apart(#[trigger] delays[i] as int, 0) <= rating.most
    &&& exists|i: int|
        0 <= i < delays.len() && time_laws::apart(#[trigger] delays[i] as int, 0) == rating.most
    &&& rating.by_station <==> exists|i: int|
        0 <= i < from.len() && adaptive_matching::spot_of(
            seen[#[trigger] from[i]],
            trip.stop_times@,
            terms,
        )->0.by_station
}

proof fn rating_is_by_delays(
    trip: Trip,
    seen: Seq<Sighting>,
    terms: Terms,
    count: int,
    from: Seq<int>,
)
    requires
        are_delays_of(
            adaptive_matching::delays_of(
                adaptive_matching::spots_of(seen, trip.stop_times@, terms),
            ),
            seen,
            trip.stop_times@,
            terms,
            from,
        ),
        from.len() > 0,
    ensures
        is_rating_by(
            adaptive_matching::rating_of(
                trip,
                terms.day,
                seen,
                adaptive_matching::spots_of(seen, trip.stop_times@, terms),
                count,
            ),
            trip,
            seen,
            terms,
            adaptive_matching::delays_of(
                adaptive_matching::spots_of(seen, trip.stop_times@, terms),
            ),
            from,
        ),
{
    let spots = adaptive_matching::spots_of(seen, trip.stop_times@, terms);
    let delays = adaptive_matching::delays_of(spots);
    total_is_the_sum(delays);
    adaptive_laws::most_is_greatest(delays);
    let most = adaptive_matching::most_of(delays);
    let k = choose|k: int|
        0 <= k < delays.len() && clock::gap(#[trigger] delays[k] as int, 0) == most;
    assert(time_laws::apart(delays[k] as int, 0) == most);
    if adaptive_matching::one_by_station(spots) {
        let j = choose|j: int|
            0 <= j < spots.len() && #[trigger] spots[j] is Some && spots[j]->0.by_station;
        assert(is_put(seen, trip.stop_times@, terms)(j));
        let i = choose|i: int| 0 <= i < from.len() && from[i] == j;
        assert(adaptive_matching::spot_of(
            seen[from[i]],
            trip.stop_times@,
            terms,
        )->0.by_station);
    }
    if exists|i: int|
        0 <= i < from.len() && adaptive_matching::spot_of(
            seen[#[trigger] from[i]],
            trip.stop_times@,
            terms,
        )->0.by_station {
        let i = choose|i: int|
            0 <= i < from.len() && adaptive_matching::spot_of(
                seen[#[trigger] from[i]],
                trip.stop_times@,
                terms,
            )->0.by_station;
        assert(is_put(seen, trip.stop_times@, terms)(from[i]));
        assert(spots[from[i]] is Some && spots[from[i]]->0.by_station);
    }
}

/// The law of tolerant ratings: a trip has one on a day exactly if at least two of the sightings,
/// and at least half of them, are put at its stops; it is then by their delays.
pub proof fn half_of_the_calls_are_enough(
    trip: Trip,
    seen: Seq<Sighting>,
    terms: Terms,
    count: int,
)
    ensures
        exists|delays: Seq<i64>, from: Seq<int>|
            #[trigger] are_delays_of(delays, seen, trip.stop_times@, terms, from) && {
                &&& adaptive_matching::unordered_rating(trip, seen, terms, count) is Some
                    <==> from.len() >= 2 && 2 * from.len() >= seen.len()
                &&& adaptive_matching::unordered_rating(trip, seen, terms, count) is Some
                    ==> is_rating_by(
                    adaptive_matching::unordered_rating(trip, seen, terms, count)->0,
                    trip,
                    seen,
                    terms,
                    delays,
                    from,
                )
            },
{
    let spots = adaptive_matching::spots_of(seen, trip.stop_times@, terms);
    let delays = adaptive_matching::delays_of(spots);
    let from = delays_of_seen(seen, trip.stop_times@, terms);
    if from.len() > 0 {
        rating_is_by_delays(trip, seen, terms, count, from);
    }
    assert(are_delays_of(delays, seen, trip.stop_times@, terms, from));
}

/// Whether a value is the upper of the middle ones: more than half are not above it, and at least
/// half are not below it.
pub open spec fn is_upper_middle(values: Seq<i64>, middle: i64) -> bool {
    &&& 2 * values.filter(|v: i64| v <= middle).len() > values.len()
    &&& 2 * values.filter(|v: i64| v >= middle).len() >= values.len()
}

/// The distances of values from one.
pub open spec fn apart_from(values: Seq<i64>, from: i64) -> Seq<i64> {
    Seq::new(values.len(), |i: int| time_laws::apart(values[i] as int, from as int) as i64)
}

/// Whether a word stands somewhere in a text.
pub open spec fn holds_word(s: Seq<char>, word: Seq<char>) -> bool {
    exists|before: Seq<char>, after: Seq<char>| s == #[trigger] (before + word + after)
}

proof fn occurring_is_holding(s: Seq<char>, word: Seq<char>)
    ensures
        text::occurs(s, word) <==> holds_word(s, word),
{
    if text::occurs(s, word) {
        let at = choose|at: int| 0 <= at <= s.len() && #[trigger] text::begins(s.skip(at), word);
        let before = s.take(at);
        let after = s.skip(at + word.len());
        assert(s =~= before + word + after) by {
            assert forall|i: int| at <= i < at + word.len() implies s[i] == word[i - at] by {
                assert(s.skip(at).take(word.len() as int)[i - at] == s[i]);
            }
        }
    }
    if holds_word(s, word) {
        let (before, after) = choose|before: Seq<char>, after: Seq<char>|
            s == #[trigger] (before + word + after);
        let at = before.len() as int;
        assert(s.skip(at).take(word.len() as int) =~= word);
        assert(text::begins(s.skip(at), word));
    }
}

/// The law of ratings of points: a trip has one on a day exactly if a sighting is put at its stops
/// and the median distance of the delays from their median is at most five minutes for a metro
/// and eight minutes for others; it is then by the delays.
pub proof fn steady_delays_are_one_trip(
    trip: Trip,
    seen: Seq<Sighting>,
    terms: Terms,
    count: int,
)
    ensures
        exists|delays: Seq<i64>, from: Seq<int>|
            #[trigger] are_delays_of(delays, seen, trip.stop_times@, terms, from) && {
                &&& from.len() == 0 ==> adaptive_matching::trajectory_rating(
                    trip,
                    seen,
                    terms,
                    count,
                ) is None
                &&& from.len() > 0 ==> exists|middle: i64, spread: i64|
                    {
                        &&& #[trigger] is_upper_middle(delays, middle)
                        &&& #[trigger] is_upper_middle(apart_from(delays, middle), spread)
                        &&& adaptive_matching::trajectory_rating(trip, seen, terms, count) is Some
                            <==> spread <= (if holds_word(trip.route_id@, "Metro"@) {
                            300int
                        } else {
                            480
                        })
                    }
                &&& adaptive_matching::trajectory_rating(trip, seen, terms, count) is Some
                    ==> is_rating_by(
                    adaptive_matching::trajectory_rating(trip, seen, terms, count)->0,
                    trip,
                    seen,
                    terms,
                    delays,
                    from,
                )
            },
{
    let spots = adaptive_matching::spots_of(seen, trip.stop_times@, terms);
    let delays = adaptive_matching::delays_of(spots);
    let from = delays_of_seen(seen, trip.stop_times@, terms);
    if from.len() > 0 {
        rating_is_by_delays(trip, seen, terms, count, from);
        let middle = adaptive_matching::median_of(delays);
        let spread = adaptive_matching::spread_of(delays);
        adaptive_matching::median_is_in_the_middle(delays);
        adaptive_matching::median_is_in_the_middle(
            adaptive_matching::distances(delays, middle),
        );
        assert(adaptive_matching::distances(delays, middle) =~= apart_from(delays, middle));
        occurring_is_holding(trip.route_id@, "Metro"@);
        assert(is_upper_middle(delays, middle));
        assert(is_upper_middle(apart_from(delays, middle), spread));
    }
    assert(are_delays_of(delays, seen, trip.stop_times@, terms, from));
}

/// The window of delays in seconds: from twenty minutes early to half an hour late for points; else
/// from five minutes early to a quarter of an hour late for trams and metros, half an hour for
/// buses, and twenty minutes for others.
pub open spec fn limits(route_type: Option<Seq<char>>, points: bool) -> (int, int) {
    if points {
        (-1200, 1800)
    } else if route_type == Some("Tramway"@) || route_type == Some("Subway"@) || route_type == Some(
        "Metro"@,
    ) || route_type == Some("Tram"@) {
        (-300, 900)
    } else if route_type == Some("Bus"@) {
        (-300, 1800)
    } else {
        (-300, 1200)
    }
}

/// Whether an operator reports points: its reference begins with one of two marks.
pub open spec fn is_point_operator(operator: Option<Seq<char>>) -> bool {
    operator is Some && exists|rest: Seq<char>|
        operator->0 == #[trigger] ("RATP-SIV:"@ + rest) || operator->0 == ("MeC_Bus_PC:Operator:"@
            + rest)
}

proof fn operators_are_told_by_marks(journey: Journey)
    ensures
        adaptive_matching::is_of_points(journey) <==> is_point_operator(journey.operator),
{
    if let Some(operator) = journey.operator {
        let a = "RATP-SIV:"@;
        let b = "MeC_Bus_PC:Operator:"@;
        if text::begins(operator, a) {
            let rest = operator.skip(a.len() as int);
            assert(operator =~= a + rest) by {
                assert forall|i: int| 0 <= i < a.len() implies operator[i] == a[i] by {
                    assert(operator.take(a.len() as int)[i] == operator[i]);
                }
            }
        }
        if text::begins(operator, b) {
            let rest = operator.skip(b.len() as int);
            assert(operator =~= b + rest) by {
                assert forall|i: int| 0 <= i < b.len() implies operator[i] == b[i] by {
                    assert(operator.take(b.len() as int)[i] == operator[i]);
                }
            }
            assert(a + rest == a + rest);
        }
        if is_point_operator(journey.operator) {
            let rest = choose|rest: Seq<char>|
                operator == #[trigger] (a + rest) || operator == (b + rest);
            if operator == a + rest {
                assert(operator.take(a.len() as int) =~= a);
            } else {
                assert(operator.take(b.len() as int) =~= b);
            }
        }
    }
}

/// Whether an agency may give a route its zone: it is the agency of the route, if the route has
/// one, and its own zone is known.
pub open spec fn may_give_zone(agency: Agency, of: Option<String>) -> bool {
    &&& of matches Some(id) ==> agency.id is Some && agency.id->0@ == id@
    &&& clock::is_zone(agency.timezone@)
}

/// Whether a zone is that of a route in the tolerant match: that of the first agency that may give
/// it one, and Paris where none may.
pub open spec fn is_route_zone(schedule: Gtfs, route: Seq<char>, zone: Seq<char>) -> bool {
    let of = if schedule.routes@.contains_key(route) {
        schedule.routes@[route].agency_id
    } else {
        None
    };
    let agencies = schedule.agencies@;
    ||| zone == "Europe/Paris"@ && forall|i: int|
        0 <= i < agencies.len() ==> !may_give_zone(#[trigger] agencies[i], of)
    ||| exists|i: int|
        {
            &&& 0 <= i < agencies.len()
            &&& may_give_zone(#[trigger] agencies[i], of)
            &&& zone == agencies[i].timezone@
            &&& forall|j: int| 0 <= j < i ==> !may_give_zone(#[trigger] agencies[j], of)
        }
}

proof fn zone_among_is_first(agencies: Seq<Agency>, of: Option<String>)
    ensures
        ({
            let zone = adaptive_matching::zone_among(agencies, text::opt_string(of));
            ||| zone == "Europe/Paris"@ && forall|i: int|
                0 <= i < agencies.len() ==> !may_give_zone(#[trigger] agencies[i], of)
            ||| exists|i: int|
                {
                    &&& 0 <= i < agencies.len()
                    &&& may_give_zone(#[trigger] agencies[i], of)
                    &&& zone == agencies[i].timezone@
                    &&& forall|j: int| 0 <= j < i ==> !may_give_zone(#[trigger] agencies[j], of)
                }
        }),
    decreases agencies.len(),
{
    if agencies.len() > 0 {
        let rest = agencies.drop_first();
        zone_among_is_first(rest, of);
        if may_give_zone(agencies[0], of) {
            assert(adaptive_matching::zone_among(agencies, text::opt_string(of))
                == agencies[0].timezone@);
        } else {
            let zone = adaptive_matching::zone_among(rest, text::opt_string(of));
            assert(adaptive_matching::zone_among(agencies, text::opt_string(of)) == zone);
            if exists|i: int|
                {
                    &&& 0 <= i < rest.len()
                    &&& may_give_zone(#[trigger] rest[i], of)
                    &&& zone == rest[i].timezone@
                    &&& forall|j: int| 0 <= j < i ==> !may_give_zone(#[trigger] rest[j], of)
                } {
                let i = choose|i: int|
                    {
                        &&& 0 <= i < rest.len()
                        &&& may_give_zone(#[trigger] rest[i], of)
                        &&& zone == rest[i].timezone@
                        &&& forall|j: int| 0 <= j < i ==> !may_give_zone(#[trigger] rest[j], of)
                    };
                assert(agencies[i + 1] == rest[i]);
                assert forall|j: int| 0 <= j < i + 1 implies !may_give_zone(
                    #[trigger] agencies[j],
                    of,
                ) by {
                    if j > 0 {
                        assert(agencies[j] == rest[j - 1]);
                    }
                }
            } else {
                assert forall|j: int| 0 <= j < agencies.len() implies !may_give_zone(
                    #[trigger] agencies[j],
                    of,
                ) by {
                    if j > 0 {
                        assert(agencies[j] == rest[j - 1]);
                    }
                }
            }
        }
    }
}

/// The law of zones in the tolerant match: that of a route is that of the first agency that may
/// give it one, and Paris where none may.
pub proof fn tolerant_zone_is_that_of_the_agency(schedule: Gtfs, route: Seq<char>)
    ensures
        is_route_zone(schedule, route, adaptive_matching::zone_of(schedule, route)),
{
    let of = if schedule.routes@.contains_key(route) {
        schedule.routes@[route].agency_id
    } else {
        None
    };
    zone_among_is_first(schedule.agencies@, of);
}

/// Whether a moment is the first at which a call was seen.
pub open spec fn is_first_seen(seen: Seq<Sighting>, moment: i64) -> bool {
    &&& exists|k: int| 0 <= k < seen.len() && (#[trigger] seen[k]).moment == moment
    &&& forall|k: int| 0 <= k < seen.len() ==> moment <= (#[trigger] seen[k]).moment
}

/// Whether a day is that on which a call was first seen, by the clocks of a zone, or one of the two
/// days before it.
pub open spec fn is_day_of(seen: Seq<Sighting>, zone: Seq<char>, day: i32) -> bool {
    exists|moment: i64| #[trigger]
        is_first_seen(seen, moment) && clock::zone_day(moment, zone) is Some && clock::zone_day(
            moment,
            zone,
        )->0 - 2 <= day <= clock::zone_day(moment, zone)->0 && -95_746_129 <= day
            && clock::zone_day(moment, zone)->0 <= 95_745_399
}

proof fn days_are_seen(seen: Seq<Sighting>, zone: Seq<char>, day: i32)
    ensures
        adaptive_matching::days_seen(seen, zone).contains(day) <==> is_day_of(seen, zone, day),
{
    adaptive_laws::first_moment_is_least(seen);
    if let Some(moment) = adaptive_matching::first_moment(seen) {
        assert(is_first_seen(seen, moment));
        if let Some(last) = clock::zone_day(moment, zone) {
            time_laws::service_days_are_three(last);
            assert(clock::recent_days(last).contains(day) <==> -95_746_129 <= day && last
                <= 95_745_399 && last - 2 <= day <= last);
        }
        assert forall|other: i64| #[trigger] is_first_seen(seen, other) implies other == moment by {
            let k = choose|k: int| 0 <= k < seen.len() && (#[trigger] seen[k]).moment == moment;
            let l = choose|k: int| 0 <= k < seen.len() && (#[trigger] seen[k]).moment == other;
            assert(moment <= seen[l].moment && other <= seen[k].moment);
        }
    }
}

/// The rating of a trip for a journey on a day, each call taken by itself or, for points, by how
/// steady the delays are.
pub open spec fn rating_on(
    schedule: Gtfs,
    journey: Journey,
    by_suffix: Map<Seq<char>, Vec<String>>,
    route: Seq<char>,
    points: bool,
    trip: Trip,
    day: i32,
) -> Option<Rating> {
    let seen = adaptive_matching::sightings_of(journey.calls, by_suffix);
    let kind = if schedule.routes@.contains_key(route) {
        Some(schedule.routes@[route].route_type@)
    } else {
        None
    };
    let terms = Terms {
        all: schedule.stops@,
        day,
        zone: adaptive_matching::zone_of(schedule, route),
        early: limits(kind, points).0,
        late: limits(kind, points).1,
    };
    if points {
        adaptive_matching::trajectory_rating(trip, seen, terms, journey.calls.len() as int)
    } else {
        adaptive_matching::unordered_rating(trip, seen, terms, journey.calls.len() as int)
    }
}

/// Whether a trip of the schedule may be a journey with the given rating: it is of the line, runs
/// on one of the days on which the journey may have begun, and is so rated on it.
pub open spec fn is_weighed(
    schedule: Gtfs,
    journey: Journey,
    by_suffix: Map<Seq<char>, Vec<String>>,
    route: Seq<char>,
    points: bool,
    id: Seq<char>,
    rating: Rating,
) -> bool {
    let seen = adaptive_matching::sightings_of(journey.calls, by_suffix);
    &&& schedule.trips.keys().contains(id)
    &&& schedule.trips@[id].route_id@ == route
    &&& exists|day: i32|
        {
            &&& #[trigger] is_day_of(seen, adaptive_matching::zone_of(schedule, route), day)
            &&& adaptive_matching::is_running(schedule, schedule.trips@[id].service_id@, day)
            &&& rating_on(
                schedule,
                journey,
                by_suffix,
                route,
                points,
                schedule.trips@[id],
                day,
            ) == Some(rating)
        }
}

proof fn ratings_on_days_are_weighed(
    schedule: Gtfs,
    journey: Journey,
    by_suffix: Map<Seq<char>, Vec<String>>,
    route: Seq<char>,
    points: bool,
    id: Seq<char>,
    rating: Rating,
)
    requires
        schedule.trips.keys().contains(id),
        schedule.trips@[id].route_id@ == route,
    ensures
        adaptive_matching::ratings_on_days(
            schedule,
            adaptive_matching::search_of(schedule, journey, by_suffix, route, points),
            schedule.trips@[id],
        ).contains(Some(rating)) <==> is_weighed(
            schedule,
            journey,
            by_suffix,
            route,
            points,
            id,
            rating,
        ),
{
    let trip = schedule.trips@[id];
    let search = adaptive_matching::search_of(schedule, journey, by_suffix, route, points);
    let all = adaptive_matching::ratings_on_days(schedule, search, trip);
    let seen = adaptive_matching::sightings_of(journey.calls, by_suffix);
    let zone = adaptive_matching::zone_of(schedule, route);
    assert forall|i: int| 0 <= i < all.len() implies #[trigger] all[i] == (
    if adaptive_matching::is_running(schedule, trip.service_id@, search.days[i]) {
        rating_on(schedule, journey, by_suffix, route, points, trip, search.days[i])
    } else {
        None
    }) by {}
    if all.contains(Some(rating)) {
        let i = choose|i: int| 0 <= i < all.len() && all[i] == Some(rating);
        let day = search.days[i];
        assert(search.days.contains(day));
        days_are_seen(seen, zone, day);
        assert(is_day_of(seen, zone, day));
    }
    if is_weighed(schedule, journey, by_suffix, route, points, id, rating) {
        let day = choose|day: i32|
            {
                &&& #[trigger] is_day_of(seen, zone, day)
                &&& adaptive_matching::is_running(schedule, trip.service_id@, day)
                &&& rating_on(schedule, journey, by_suffix, route, points, trip, day) == Some(
                    rating,
                )
            };
        days_are_seen(seen, zone, day);
        let i = choose|i: int| 0 <= i < search.days.len() && search.days[i] == day;
        assert(all[i] == Some(rating));
    }
}

/// How strictly a trip is held to the destination of a journey.
pub open spec fn is_bound(
    schedule: Gtfs,
    trip: Trip,
    to: Seq<Seq<char>>,
    at_the_end: bool,
) -> bool {
    if at_the_end {
        trip.stop_times@.len() > 0 && is_near(
            schedule.stops@,
            to,
            trip.stop_times@[trip.stop_times@.len() - 1].stop_id@,
        )
    } else {
        exists|i: int|
            0 <= i < trip.stop_times@.len() && is_near(
                schedule.stops@,
                to,
                (#[trigger] trip.stop_times@[i]).stop_id@,
            )
    }
}

proof fn near_is_at(all: Map<Seq<char>, Stop>, list: Seq<Seq<char>>, stop: Seq<char>)
    ensures
        adaptive_matching::is_at(all, list, stop) <==> is_near(all, list, stop),
{
    if list.contains(stop) {
        let i = choose|i: int| 0 <= i < list.len() && list[i] == stop;
        assert(list[i] == stop);
    }
}

proof fn bound_is_goes_to(schedule: Gtfs, trip: Trip, to: Seq<Seq<char>>)
    requires
        to.len() > 0,
    ensures
        adaptive_matching::goes_to(trip, to, schedule.stops@, DestinationMode::Terminus)
            <==> is_bound(schedule, trip, to, true),
        adaptive_matching::goes_to(trip, to, schedule.stops@, DestinationMode::AnyStop)
            <==> is_bound(schedule, trip, to, false),
{
    assert forall|stop: Seq<char>| #[trigger]
        adaptive_matching::is_at(schedule.stops@, to, stop) <==> is_near(
            schedule.stops@,
            to,
            stop,
        ) by {
        near_is_at(schedule.stops@, to, stop);
    }
    if is_bound(schedule, trip, to, false) {
        let i = choose|i: int|
            0 <= i < trip.stop_times@.len() && is_near(
                schedule.stops@,
                to,
                (#[trigger] trip.stop_times@[i]).stop_id@,
            );
        assert(adaptive_matching::is_at(schedule.stops@, to, trip.stop_times@[i].stop_id@));
    }
    if trip.stop_times@.len() > 0 {
        near_is_at(
            schedule.stops@,
            to,
            trip.stop_times@[trip.stop_times@.len() - 1].stop_id@,
        );
    }
}

proof fn ratings_are_weighed(
    schedule: Gtfs,
    journey: Journey,
    by_suffix: Map<Seq<char>, Vec<String>>,
    route: Seq<char>,
    points: bool,
    ids: Seq<Seq<char>>,
    to: Seq<Seq<char>>,
    mode: DestinationMode,
    rating: Rating,
)
    requires
        forall|i: int| 0 <= i < ids.len() ==> schedule.trips.keys().contains(#[trigger] ids[i]),
    ensures
        adaptive_matching::ratings_of(
            schedule,
            adaptive_matching::search_of(schedule, journey, by_suffix, route, points),
            ids,
            route,
            to,
            mode,
        ).contains(Some(rating)) <==> exists|i: int|
            0 <= i < ids.len() && is_weighed(
                schedule,
                journey,
                by_suffix,
                route,
                points,
                #[trigger] ids[i],
                rating,
            ) && adaptive_matching::goes_to(schedule.trips@[ids[i]], to, schedule.stops@, mode),
    decreases ids.len(),
{
    let search = adaptive_matching::search_of(schedule, journey, by_suffix, route, points);
    let all = adaptive_matching::ratings_of(schedule, search, ids, route, to, mode);
    if ids.len() > 0 {
        let rest = ids.drop_last();
        let n = rest.len() as int;
        let id = ids[n];
        let trip = schedule.trips@[id];
        let front = adaptive_matching::ratings_of(schedule, search, rest, route, to, mode);
        let here = adaptive_matching::ratings_on_days(schedule, search, trip);
        assert forall|i: int| 0 <= i < n implies #[trigger] rest[i] == ids[i] by {}
        ratings_are_weighed(schedule, journey, by_suffix, route, points, rest, to, mode, rating);
        let taken = trip.route_id@ == route && adaptive_matching::goes_to(
            trip,
            to,
            schedule.stops@,
            mode,
        );
        if taken {
            ratings_on_days_are_weighed(
                schedule,
                journey,
                by_suffix,
                route,
                points,
                id,
                rating,
            );
            assert(all == front + here);
        }
        if all.contains(Some(rating)) {
            let k = choose|k: int| 0 <= k < all.len() && all[k] == Some(rating);
            if k < front.len() {
                assert(front[k] == Some(rating));
                assert(front.contains(Some(rating)));
                let i = choose|i: int|
                    0 <= i < rest.len() && is_weighed(
                        schedule,
                        journey,
                        by_suffix,
                        route,
                        points,
                        #[trigger] rest[i],
                        rating,
                    ) && adaptive_matching::goes_to(
                        schedule.trips@[rest[i]],
                        to,
                        schedule.stops@,
                        mode,
                    );
                assert(ids[i] == rest[i]);
            } else {
                assert(here[k - front.len()] == Some(rating));
                assert(here.contains(Some(rating)));
                assert(is_weighed(schedule, journey, by_suffix, route, points, ids[n], rating));
            }
        }
        if exists|i: int|
            0 <= i < ids.len() && is_weighed(
                schedule,
                journey,
                by_suffix,
                route,
                points,
                #[trigger] ids[i],
                rating,
            ) && adaptive_matching::goes_to(schedule.trips@[ids[i]], to, schedule.stops@, mode) {
            let i = choose|i: int|
                0 <= i < ids.len() && is_weighed(
                    schedule,
                    journey,
                    by_suffix,
                    route,
                    points,
                    #[trigger] ids[i],
                    rating,
                ) && adaptive_matching::goes_to(
                    schedule.trips@[ids[i]],
                    to,
                    schedule.stops@,
                    mode,
                );
            if i < n {
                assert(rest[i] == ids[i]);
                assert(front.contains(Some(rating)));
                let k = choose|k: int| 0 <= k < front.len() && front[k] == Some(rating);
                assert(all[k] == Some(rating));
            } else {
                assert(here.contains(Some(rating)));
                let k = choose|k: int| 0 <= k < here.len() && here[k] == Some(rating);
                assert(all[front.len() + k] == Some(rating));
            }
        }
    }
}

/// Whether one rating is worse than another: it has fewer calls at stops; or as many, and they are
/// late or early by more in the mean; or by as much, and by more at the most; or by as much, and by
/// more in all.
pub open spec fn is_worse(a: Rating, b: Rating) -> bool {
    ||| a.matched < b.matched
    ||| a.matched == b.matched && a.mean > b.mean
    ||| a.matched == b.matched && a.mean == b.mean && a.most > b.most
    ||| a.matched == b.matched && a.mean == b.mean && a.most == b.most && a.total > b.total
}

/// Whether a match is the one that a rating makes.
pub open spec fn is_match_by(found: Match, rating: Rating) -> bool {
    &&& found.trip_id == rating.trip_id
    &&& found.day == Some(rating.day)
    &&& found.kind == MatchKind::DirectionAndTime
    &&& found.mean == Some(rating.mean)
    &&& found.at == rating.at
    &&& found.by_station == rating.by_station
}

/// Which trips a match may be taken from, by the destination: those that end at its station if any
/// of them is weighed; else those that call there if any is; else all.
pub ghost enum Tier {
    EndsThere,
    CallsThere,
    Anywhere,
}

/// Whether a trip is in a tier.
pub open spec fn is_in_tier(schedule: Gtfs, id: Seq<char>, to: Seq<Seq<char>>, tier: Tier) -> bool {
    match tier {
        Tier::EndsThere => to.len() > 0 && is_bound(schedule, schedule.trips@[id], to, true),
        Tier::CallsThere => to.len() > 0 && is_bound(schedule, schedule.trips@[id], to, false),
        Tier::Anywhere => true,
    }
}

/// Whether a match is the best of a tier: that of a trip of the tier, and no trip of the tier has a
/// better rating.
pub open spec fn is_best_of(
    schedule: Gtfs,
    journey: Journey,
    by_suffix: Map<Seq<char>, Vec<String>>,
    route: Seq<char>,
    points: bool,
    to: Seq<Seq<char>>,
    tier: Tier,
    found: Match,
) -> bool {
    exists|id: Seq<char>, rating: Rating|
        {
            &&& #[trigger] is_weighed(schedule, journey, by_suffix, route, points, id, rating)
            &&& is_in_tier(schedule, id, to, tier)
            &&& is_match_by(found, rating)
            &&& forall|other: Seq<char>, least: Rating|
                #[trigger] is_weighed(
                    schedule,
                    journey,
                    by_suffix,
                    route,
                    points,
                    other,
                    least,
                ) && is_in_tier(schedule, other, to, tier) ==> !is_worse(rating, least)
        }
}

/// Whether a trip of a tier is weighed.
pub open spec fn has_one(
    schedule: Gtfs,
    journey: Journey,
    by_suffix: Map<Seq<char>, Vec<String>>,
    route: Seq<char>,
    points: bool,
    to: Seq<Seq<char>>,
    tier: Tier,
) -> bool {
    exists|id: Seq<char>, rating: Rating|
        #[trigger] is_weighed(schedule, journey, by_suffix, route, points, id, rating)
            && is_in_tier(schedule, id, to, tier)
}

proof fn top_is_best(
    schedule: Gtfs,
    journey: Journey,
    by_suffix: Map<Seq<char>, Vec<String>>,
    route: Seq<char>,
    points: bool,
    to: Seq<Seq<char>>,
    mode: DestinationMode,
    tier: Tier,
)
    requires
        forall|id: Seq<char>|
            adaptive_matching::goes_to(#[trigger] schedule.trips@[id], to, schedule.stops@, mode)
                <==> is_in_tier(schedule, id, to, tier),
    ensures
        ({
            let top = adaptive_matching::top_rating(
                adaptive_matching::ratings_of(
                    schedule,
                    adaptive_matching::search_of(schedule, journey, by_suffix, route, points),
                    schedule.trips.keys(),
                    route,
                    to,
                    mode,
                ),
            );
            &&& top is Some <==> has_one(schedule, journey, by_suffix, route, points, to, tier)
            &&& top is Some ==> is_best_of(
                schedule,
                journey,
                by_suffix,
                route,
                points,
                to,
                tier,
                adaptive_matching::match_from(top->0),
            )
        }),
{
    let ids = schedule.trips.keys();
    let search = adaptive_matching::search_of(schedule, journey, by_suffix, route, points);
    let all = adaptive_matching::ratings_of(schedule, search, ids, route, to, mode);
    let top = adaptive_matching::top_rating(all);
    adaptive_matching::top_rating_is_not_outranked(all);
    assert forall|i: int| 0 <= i < ids.len() implies ids.contains(#[trigger] ids[i]) by {}
    assert forall|id: Seq<char>, rating: Rating|
        #[trigger] is_weighed(schedule, journey, by_suffix, route, points, id, rating)
            && is_in_tier(schedule, id, to, tier) implies top is Some && !is_worse(
        top->0,
        rating,
    ) by {
        ratings_are_weighed(schedule, journey, by_suffix, route, points, ids, to, mode, rating);
        let i = choose|i: int| 0 <= i < ids.len() && ids[i] == id;
        assert(is_weighed(schedule, journey, by_suffix, route, points, ids[i], rating));
        assert(adaptive_matching::goes_to(
            schedule.trips@[ids[i]],
            to,
            schedule.stops@,
            mode,
        ));
        let k = choose|k: int| 0 <= k < all.len() && all[k] == Some(rating);
        assert(all[k] is Some);
    }
    if top is Some {
        let rating = top->0;
        ratings_are_weighed(schedule, journey, by_suffix, route, points, ids, to, mode, rating);
        let i = choose|i: int|
            0 <= i < ids.len() && is_weighed(
                schedule,
                journey,
                by_suffix,
                route,
                points,
                #[trigger] ids[i],
                rating,
            ) && adaptive_matching::goes_to(schedule.trips@[ids[i]], to, schedule.stops@, mode);
        assert(is_in_tier(schedule, ids[i], to, tier)) by {
            assert(adaptive_matching::goes_to(
                schedule.trips@[ids[i]],
                to,
                schedule.stops@,
                mode,
            ));
        }
        assert(is_match_by(adaptive_matching::match_from(rating), rating));
        assert(is_weighed(schedule, journey, by_suffix, route, points, ids[i], rating));
    }
}

proof fn tiers_widen(
    schedule: Gtfs,
    journey: Journey,
    by_suffix: Map<Seq<char>, Vec<String>>,
    route: Seq<char>,
    points: bool,
    to: Seq<Seq<char>>,
    tier: Tier,
)
    ensures
        has_one(schedule, journey, by_suffix, route, points, to, tier) ==> has_one(
            schedule,
            journey,
            by_suffix,
            route,
            points,
            to,
            Tier::Anywhere,
        ),
{
    if has_one(schedule, journey, by_suffix, route, points, to, tier) {
        let (id, rating) = choose|id: Seq<char>, rating: Rating|
            #[trigger] is_weighed(schedule, journey, by_suffix, route, points, id, rating)
                && is_in_tier(schedule, id, to, tier);
        assert(is_weighed(schedule, journey, by_suffix, route, points, id, rating));
    }
}

/// The law of the destination, and of the tolerant match as a whole: a journey of a line has one
/// exactly if a trip is weighed. If a weighed trip ends at the station of the destination, the
/// match is the best of those that do; if none does but one calls there, it is the best of those;
/// the destination is left aside only where neither is weighed, or none is known.
pub proof fn tolerant_match_minds_the_destination(
    schedule: Gtfs,
    journey: Journey,
    by_suffix: Map<Seq<char>, Vec<String>>,
)
    ensures
        matching::route_of(journey) is None ==> adaptive_matching::tolerant_match(
            schedule,
            journey,
            by_suffix,
        ) is None,
        matching::route_of(journey) matches Some(route) ==> {
            let points = is_point_operator(journey.operator);
            let to = if journey.destination is Some {
                stops::meant_stops(by_suffix, journey.destination->0)
            } else {
                seq![]
            };
            let found = adaptive_matching::tolerant_match(schedule, journey, by_suffix);
            let tier = if has_one(
                schedule,
                journey,
                by_suffix,
                route,
                points,
                to,
                Tier::EndsThere,
            ) {
                Tier::EndsThere
            } else if has_one(
                schedule,
                journey,
                by_suffix,
                route,
                points,
                to,
                Tier::CallsThere,
            ) {
                Tier::CallsThere
            } else {
                Tier::Anywhere
            };
            &&& found is Some <==> has_one(
                schedule,
                journey,
                by_suffix,
                route,
                points,
                to,
                Tier::Anywhere,
            )
            &&& found is Some ==> is_best_of(
                schedule,
                journey,
                by_suffix,
                route,
                points,
                to,
                tier,
                found->0,
            )
        },
{
    if let Some(route) = matching::route_of(journey) {
        let points = is_point_operator(journey.operator);
        operators_are_told_by_marks(journey);
        let to = adaptive_matching::destinations_of(journey, by_suffix);
        let seen = adaptive_matching::sightings_of(journey.calls, by_suffix);
        let any = Tier::Anywhere;
        assert(to == (if journey.destination is Some {
            stops::meant_stops(by_suffix, journey.destination->0)
        } else {
            seq![]
        }));
        tiers_widen(schedule, journey, by_suffix, route, points, to, Tier::EndsThere);
        tiers_widen(schedule, journey, by_suffix, route, points, to, Tier::CallsThere);
        top_is_best(
            schedule,
            journey,
            by_suffix,
            route,
            points,
            to,
            DestinationMode::Ignored,
            any,
        );
        if seen.len() == 0 {
            assert forall|id: Seq<char>, rating: Rating|
                !(#[trigger] is_weighed(
                    schedule,
                    journey,
                    by_suffix,
                    route,
                    points,
                    id,
                    rating,
                )) by {
                if is_weighed(schedule, journey, by_suffix, route, points, id, rating) {
                    let day = choose|day: i32| #[trigger]
                        is_day_of(seen, adaptive_matching::zone_of(schedule, route), day);
                    let moment = choose|moment: i64| #[trigger] is_first_seen(seen, moment);
                    assert(is_first_seen(seen, moment));
                }
            }
        }
        if to.len() > 0 {
            assert forall|id: Seq<char>| true implies (adaptive_matching::goes_to(
                #[trigger] schedule.trips@[id],
                to,
                schedule.stops@,
                DestinationMode::Terminus,
            ) <==> is_in_tier(schedule, id, to, Tier::EndsThere)) && (adaptive_matching::goes_to(
                schedule.trips@[id],
                to,
                schedule.stops@,
                DestinationMode::AnyStop,
            ) <==> is_in_tier(schedule, id, to, Tier::CallsThere)) by {
                bound_is_goes_to(schedule, schedule.trips@[id], to);
            }
            top_is_best(
                schedule,
                journey,
                by_suffix,
                route,
                points,
                to,
                DestinationMode::Terminus,
                Tier::EndsThere,
            );
            top_is_best(
                schedule,
                journey,
                by_suffix,
                route,
                points,
                to,
                DestinationMode::AnyStop,
                Tier::CallsThere,
            );
        } else {
            top_is_best(
                schedule,
                journey,
                by_suffix,
                route,
                points,
                to,
                DestinationMode::Terminus,
                any,
            );
            top_is_best(
                schedule,
                journey,
                by_suffix,
                route,
                points,
                to,
                DestinationMode::AnyStop,
                any,
            );
        }
    }
}

/// The law of remembered trips: a journey is matched with one exactly if the trip is of its line
/// and is weighed, each call taken by itself, with a mean of at most ten minutes; the match is by
/// the best of such ratings.
pub proof fn remembered_match_is_near(
    schedule: Gtfs,
    journey: Journey,
    by_suffix: Map<Seq<char>, Vec<String>>,
    trip_id: Seq<char>,
)
    requires
        schedule.trips.valid(),
    ensures
        matching::route_of(journey) is None ==> adaptive_matching::remembered_match(
            schedule,
            journey,
            by_suffix,
            trip_id,
        ) is None,
        matching::route_of(journey) matches Some(route) ==> {
            let found = adaptive_matching::remembered_match(schedule, journey, by_suffix, trip_id);
            &&& found is Some <==> exists|rating: Rating| #[trigger]
                is_weighed(schedule, journey, by_suffix, route, false, trip_id, rating)
                    && rating.mean <= 600
            &&& found is Some ==> exists|rating: Rating|
                {
                    &&& #[trigger] is_weighed(
                        schedule,
                        journey,
                        by_suffix,
                        route,
                        false,
                        trip_id,
                        rating,
                    )
                    &&& rating.mean <= 600
                    &&& is_match_by(found->0, rating)
                    &&& forall|least: Rating| #[trigger]
                        is_weighed(schedule, journey, by_suffix, route, false, trip_id, least)
                            && least.mean <= 600 ==> !is_worse(rating, least)
                }
        },
{
    if let Some(route) = matching::route_of(journey) {
        table::table_keys(&schedule.trips);
        if schedule.trips@.contains_key(trip_id) && schedule.trips@[trip_id].route_id@ == route {
            let trip = schedule.trips@[trip_id];
            let search = adaptive_matching::search_of(schedule, journey, by_suffix, route, false);
            let all = adaptive_matching::ratings_on_days(schedule, search, trip);
            let near = adaptive_matching::near_ratings(all);
            let top = adaptive_matching::top_rating(near);
            adaptive_matching::top_rating_is_not_outranked(near);
            assert forall|rating: Rating| #[trigger]
                is_weighed(schedule, journey, by_suffix, route, false, trip_id, rating)
                    && rating.mean <= 600 implies top is Some && !is_worse(top->0, rating) by {
                ratings_on_days_are_weighed(
                    schedule,
                    journey,
                    by_suffix,
                    route,
                    false,
                    trip_id,
                    rating,
                );
                let k = choose|k: int| 0 <= k < all.len() && all[k] == Some(rating);
                assert(near[k] == Some(rating));
            }
            if top is Some {
                let rating = top->0;
                let k = choose|k: int| 0 <= k < near.len() && near[k] == top;
                assert(all[k] == Some(rating));
                assert(all.contains(Some(rating)));
                ratings_on_days_are_weighed(
                    schedule,
                    journey,
                    by_suffix,
                    route,
                    false,
                    trip_id,
                    rating,
                );
                assert(is_match_by(adaptive_matching::match_from(rating), rating));
            }
        }
    }
}

} // verus!
