//! A tolerant match for journeys that the strict one misses.
//!
//! Feeds repeat calls, name stops by aliases, give calls out of order, or report where a vehicle
//! was seen rather than one clean run. Here the calls are put at stops one by one, by time alone.

use crate::clock::{self, current_day, is_zone_name, local_day, magnitude, service_days, signed_time_difference};
use crate::gtfs::{self, Agency, Gtfs, Stop, StopTime, Trip};
use crate::lists::{self, list_contains};
use crate::matching::{self, read_stamp, target_route, JourneyMatch, Match, MatchKind};
use crate::order::{self, sort_by_rank, Ranked};
use crate::scoring::{self, MAX_DIFFERENCE};
use crate::services::{self, calendar_runs, default_zone, find_first_exception};
use crate::siri_models::{self, reference_value, EstimatedCall, EstimatedVehicleJourney, Journey};
use crate::stops::{self, build_suffix_index, resolve_reference, top_parent};
use crate::table::Table;
use crate::text::{self, text_begins, text_eq, text_occurs};
use vstd::prelude::*;

verus! {

/// The mean difference up to which a remembered trip is taken again, in seconds.
pub const CACHE_MAX_MEAN_DIFFERENCE_SECONDS: i64 = 600;

/// The index of the stops by the last segment of their identifiers.
pub struct StopAliasIndex {
    pub by_suffix: Table<Vec<String>>,
}

impl StopAliasIndex {
    /// The index of the stops of a schedule.
    pub fn build(gtfs: &Gtfs) -> (r: Self)
        ensures
            lists::is_index_by(r.by_suffix@, gtfs.stops@.dom(), stops::by_suffix()),
    {
        StopAliasIndex { by_suffix: build_suffix_index(&gtfs.stops) }
    }

    /// The stops that a reference may mean.
    pub fn resolve(&self, value: &str) -> (r: Vec<String>)
        ensures
            text::texts(r@) == stops::meant_stops(self.by_suffix@, value@),
    {
        resolve_reference(&self.by_suffix, value)
    }

    /// The first of the stops that a reference may mean.
    pub fn first(&self, value: &str) -> (r: Option<String>)
        ensures
            text::opt_string(r) == (if stops::meant_stops(self.by_suffix@, value@).len() > 0 {
                Some(stops::meant_stops(self.by_suffix@, value@)[0])
            } else {
                None
            }),
    {
        let found = self.resolve(value);
        assert(text::texts(found@).len() == found@.len());
        if found.len() > 0 {
            assert(text::texts(found@)[0] == found@[0]@);
            Some(found[0].clone())
        } else {
            None
        }
    }
}

/// A call at a known stop with a time.
#[derive(Debug, Clone)]
pub struct ResolvedCall {
    /// Which call of the journey it is.
    pub original_index: usize,
    pub aliases: Vec<String>,
    pub observed: i64,
}

/// A call at a known stop with a time.
#[verifier::ext_equal]
pub ghost struct Sighting {
    pub index: int,
    pub aliases: Seq<Seq<char>>,
    pub moment: i64,
}

impl View for ResolvedCall {
    type V = Sighting;

    open spec fn view(&self) -> Sighting {
        Sighting {
            index: self.original_index as int,
            aliases: text::texts(self.aliases@),
            moment: self.observed,
        }
    }
}

/// The time of a call: the expected arrival or departure, else the aimed arrival or departure.
pub open spec fn moment_of(call: EstimatedCall) -> Option<i64> {
    matching::first_stamp(
        matching::first_stamp(
            matching::stamp_of(call.expected_arrival_time),
            matching::stamp_of(call.expected_departure_time),
        ),
        matching::first_stamp(
            matching::stamp_of(call.aimed_arrival_time),
            matching::stamp_of(call.aimed_departure_time),
        ),
    )
}

/// Where and when a call was, if its stop is known and it has a time.
pub open spec fn sighting_of(
    index: int,
    call: EstimatedCall,
    by_suffix: Map<Seq<char>, Vec<String>>,
) -> Option<Sighting> {
    match siri_models::reference_text(call.stop_point_ref) {
        Some(reference) => {
            let aliases = stops::meant_stops(by_suffix, reference);
            match moment_of(call) {
                Some(moment) => if aliases.len() > 0 {
                    Some(Sighting { index, aliases, moment })
                } else {
                    None
                },
                None => None,
            }
        },
        None => None,
    }
}

/// Where and when the calls were.
pub open spec fn sightings_of(
    calls: Seq<EstimatedCall>,
    by_suffix: Map<Seq<char>, Vec<String>>,
) -> Seq<Sighting>
    decreases calls.len(),
{
    if calls.len() == 0 {
        seq![]
    } else {
        let front = sightings_of(calls.drop_last(), by_suffix);
        match sighting_of(calls.len() - 1, calls.last(), by_suffix) {
            Some(sighting) => front.push(sighting),
            None => front,
        }
    }
}

/// The sightings of a list of calls.
pub open spec fn sightings(calls: Seq<ResolvedCall>) -> Seq<Sighting> {
    Seq::new(calls.len(), |i: int| calls[i]@)
}

/// Whether sightings are of the first `count` calls, at moments that a feed can hold.
pub open spec fn are_seen(calls: Seq<Sighting>, count: int) -> bool {
    forall|i: int|
        0 <= i < calls.len() ==> 0 <= (#[trigger] calls[i]).index < count && clock::is_stamp(
            calls[i].moment as int,
        )
}

/// Where and when a call was.
pub fn resolve_call(
    original_index: usize,
    call: &EstimatedCall,
    aliases: &StopAliasIndex,
) -> (r: Option<ResolvedCall>)
    ensures
        match r {
            Some(found) => sighting_of(original_index as int, *call, aliases.by_suffix@) == Some(
                found@,
            ) && clock::is_stamp(found.observed as int),
            None => sighting_of(original_index as int, *call, aliases.by_suffix@) is None,
        },
{
    let reference = match reference_value(&call.stop_point_ref) {
        Some(reference) => reference,
        None => return None,
    };
    let stop_aliases = aliases.resolve(reference);
    assert(text::texts(stop_aliases@).len() == stop_aliases@.len());
    if stop_aliases.len() == 0 {
        return None;
    }
    let mut observed = read_stamp(&call.expected_arrival_time);
    if observed.is_none() {
        observed = read_stamp(&call.expected_departure_time);
    }
    if observed.is_none() {
        observed = read_stamp(&call.aimed_arrival_time);
    }
    if observed.is_none() {
        observed = read_stamp(&call.aimed_departure_time);
    }
    match observed {
        Some(observed) => Some(ResolvedCall { original_index, aliases: stop_aliases, observed }),
        None => None,
    }
}

/// Where and when the calls of a journey were.
pub fn resolve_calls(journey: &EstimatedVehicleJourney, aliases: &StopAliasIndex) -> (r: Vec<
    ResolvedCall,
>)
    ensures
        sightings(r@) == sightings_of(journey@.calls, aliases.by_suffix@),
        are_seen(sightings(r@), journey@.calls.len() as int),
{
    let mut found: Vec<ResolvedCall> = Vec::new();
    assert(sightings(found@) =~= seq![]);
    if let Some(calls) = &journey.estimated_calls {
        let list = &calls.estimated_call;
        let mut i: usize = 0;
        while i < list.len()
            invariant
                i <= list@.len(),
                sightings(found@) == sightings_of(list@.take(i as int), aliases.by_suffix@),
                are_seen(sightings(found@), i as int),
            decreases list@.len() - i,
        {
            assert(list@.take(i + 1).drop_last() =~= list@.take(i as int));
            assert(list@.take(i + 1).last() == list@[i as int]);
            let ghost before = sightings(found@);
            if let Some(call) = resolve_call(i, &list[i], aliases) {
                found.push(call);
                assert(sightings(found@) =~= before.push(call@));
            }
            assert forall|k: int| 0 <= k < found@.len() implies 0 <= (#[trigger] sightings(
                found@,
            )[k]).index < i + 1 && clock::is_stamp(sightings(found@)[k].moment as int) by {
                if k < before.len() {
                    assert(sightings(found@)[k] == before[k]);
                }
            }
            i = i + 1;
        }
        assert(list@.take(i as int) =~= list@);
    }
    found
}

/// Whether a stop has the station of one of a list of stops.
pub open spec fn shares_station(
    all: Map<Seq<char>, Stop>,
    aliases: Seq<Seq<char>>,
    stop: Seq<char>,
) -> bool {
    exists|i: int|
        0 <= i < aliases.len() && stops::top_parent_of(all, #[trigger] aliases[i])
            == stops::top_parent_of(all, stop)
}

/// Whether a stop has the station of one of a list of stops.
pub fn has_station_of(aliases: &Vec<String>, stop_id: &str, stops: &Table<Stop>) -> (r: bool)
    ensures
        r == shares_station(stops@, text::texts(aliases@), stop_id@),
{
    let station = top_parent(stop_id, stops);
    let ghost all = text::texts(aliases@);
    let mut i: usize = 0;
    while i < aliases.len()
        invariant
            i <= aliases@.len(),
            all == text::texts(aliases@),
            station@ == stops::top_parent_of(stops@, stop_id@),
            forall|k: int|
                0 <= k < i ==> stops::top_parent_of(stops@, #[trigger] all[k]) != station@,
        decreases aliases@.len() - i,
    {
        assert(all[i as int] == aliases@[i as int]@);
        let other = top_parent(aliases[i].as_str(), stops);
        if text_eq(other.as_str(), station.as_str()) {
            return true;
        }
        i = i + 1;
    }
    false
}

/// Whether a call may be at a stop, and whether it is for the station alone.
pub fn call_matches_stop(call: &ResolvedCall, stop_id: &str, gtfs: &Gtfs) -> (r: (bool, bool))
    ensures
        r.0 == (call@.aliases.contains(stop_id@) || shares_station(
            gtfs.stops@,
            call@.aliases,
            stop_id@,
        )),
        r.1 == (!call@.aliases.contains(stop_id@) && shares_station(
            gtfs.stops@,
            call@.aliases,
            stop_id@,
        )),
{
    if list_contains(&call.aliases, stop_id) {
        return (true, false);
    }
    let parent_match = has_station_of(&call.aliases, stop_id, &gtfs.stops);
    (parent_match, parent_match)
}

/// Where a call is put: the stop, how late it is there, and whether for the station alone.
pub ghost struct Spot {
    pub stop: usize,
    pub delay: int,
    pub by_station: bool,
}

/// On which day, by which zone and in which window of delays calls are put at stops.
pub ghost struct Terms {
    pub all: Map<Seq<char>, Stop>,
    pub day: i32,
    pub zone: Seq<char>,
    pub early: int,
    pub late: int,
}

/// How late a call is at a stop, if it may be there and is within the window.
pub open spec fn delay_at(call: Sighting, stop: StopTime, terms: Terms) -> Option<int> {
    if call.aliases.contains(stop.stop_id@) || shares_station(
        terms.all,
        call.aliases,
        stop.stop_id@,
    ) {
        match gtfs::due_at_departure(stop) {
            Some(seconds) => match clock::nearest_delay(
                call.moment as int,
                clock::scheduled_times(terms.day, seconds, terms.zone),
            ) {
                Some(delay) => if terms.early <= delay <= terms.late {
                    Some(delay)
                } else {
                    None
                },
                None => None,
            },
            None => None,
        }
    } else {
        None
    }
}

/// Where a call is put: at the stop at which its delay is least, the first of these.
pub open spec fn spot_of(call: Sighting, stop_times: Seq<StopTime>, terms: Terms) -> Option<Spot>
    decreases stop_times.len(),
{
    if stop_times.len() == 0 {
        None
    } else {
        let before = spot_of(call, stop_times.drop_last(), terms);
        match delay_at(call, stop_times.last(), terms) {
            Some(delay) => if before is None || clock::gap(delay, 0) < clock::gap(
                before->0.delay,
                0,
            ) {
                Some(
                    Spot {
                        stop: (stop_times.len() - 1) as usize,
                        delay,
                        by_station: !call.aliases.contains(stop_times.last().stop_id@),
                    },
                )
            } else {
                before
            },
            None => before,
        }
    }
}

/// The law of spots: a call is put at a stop exactly if it is within the window at one, and at no
/// stop is it less early or late than where it is put.
pub proof fn spot_is_nearest(call: Sighting, stop_times: Seq<StopTime>, terms: Terms)
    requires
        stop_times.len() <= usize::MAX,
    ensures
        forall|k: int|
            0 <= k < stop_times.len() && delay_at(call, #[trigger] stop_times[k], terms) is Some
                ==> spot_of(call, stop_times, terms) is Some && clock::gap(
                spot_of(call, stop_times, terms)->0.delay,
                0,
            ) <= clock::gap(delay_at(call, stop_times[k], terms)->0, 0),
        spot_of(call, stop_times, terms) matches Some(spot) ==> {
            &&& spot.stop < stop_times.len()
            &&& delay_at(call, stop_times[spot.stop as int], terms) == Some(spot.delay)
            &&& spot.by_station == !call.aliases.contains(stop_times[spot.stop as int].stop_id@)
        },
    decreases stop_times.len(),
{
    if stop_times.len() > 0 {
        let front = stop_times.drop_last();
        spot_is_nearest(call, front, terms);
        assert forall|k: int|
            0 <= k < stop_times.len() && delay_at(
                call,
                #[trigger] stop_times[k],
                terms,
            ) is Some implies spot_of(call, stop_times, terms) is Some && clock::gap(
            spot_of(call, stop_times, terms)->0.delay,
            0,
        ) <= clock::gap(delay_at(call, stop_times[k], terms)->0, 0) by {
            if k < front.len() {
                assert(front[k] == stop_times[k]);
            }
        }
    }
}

/// Where a call is put.
#[derive(Debug, Clone, Copy)]
pub struct Placing {
    pub stop: usize,
    pub delay: i64,
    pub by_station: bool,
}

impl View for Placing {
    type V = Spot;

    open spec fn view(&self) -> Spot {
        Spot { stop: self.stop, delay: self.delay as int, by_station: self.by_station }
    }
}

/// Where a call is put, if anywhere.
pub open spec fn placing_view(placing: Option<Placing>) -> Option<Spot> {
    match placing {
        Some(found) => Some(found@),
        None => None,
    }
}

/// Where a call is put.
pub fn place_call(
    call: &ResolvedCall,
    trip: &Trip,
    service_date: i32,
    timezone: &str,
    gtfs: &Gtfs,
    early_seconds: i64,
    late_seconds: i64,
) -> (r: Option<Placing>)
    requires
        clock::is_stamp(call.observed as int),
    ensures
        placing_view(r) == spot_of(
            call@,
            trip.stop_times@,
            Terms {
                all: gtfs.stops@,
                day: service_date,
                zone: timezone@,
                early: early_seconds as int,
                late: late_seconds as int,
            },
        ),
        r matches Some(found) ==> -MAX_DIFFERENCE <= found.delay <= MAX_DIFFERENCE,
{
    let ghost terms = Terms {
        all: gtfs.stops@,
        day: service_date,
        zone: timezone@,
        early: early_seconds as int,
        late: late_seconds as int,
    };
    let mut best: Option<Placing> = None;
    let mut i: usize = 0;
    while i < trip.stop_times.len()
        invariant
            i <= trip.stop_times@.len(),
            clock::is_stamp(call.observed as int),
            terms == (Terms {
                all: gtfs.stops@,
                day: service_date,
                zone: timezone@,
                early: early_seconds as int,
                late: late_seconds as int,
            }),
            placing_view(best) == spot_of(call@, trip.stop_times@.take(i as int), terms),
            best matches Some(found) ==> -MAX_DIFFERENCE <= found.delay <= MAX_DIFFERENCE,
        decreases trip.stop_times@.len() - i,
    {
        let stop_time = &trip.stop_times[i];
        assert(trip.stop_times@.take(i + 1).drop_last() =~= trip.stop_times@.take(i as int));
        assert(trip.stop_times@.take(i + 1).last() == *stop_time);
        let (matches, by_station) = call_matches_stop(call, stop_time.stop_id.as_str(), gtfs);
        if matches {
            if let Some(seconds) = stop_time.departure_or_arrival() {
                if let Some(delay) = signed_time_difference(
                    call.observed,
                    service_date,
                    seconds,
                    timezone,
                ) {
                    if early_seconds <= delay && delay <= late_seconds {
                        let nearer = match best {
                            Some(found) => magnitude(delay) < magnitude(found.delay),
                            None => true,
                        };
                        if nearer {
                            best = Some(Placing { stop: i, delay, by_station });
                        }
                    }
                }
            }
        }
        assert(placing_view(best) == spot_of(call@, trip.stop_times@.take(i + 1), terms));
        i = i + 1;
    }
    assert(trip.stop_times@.take(i as int) =~= trip.stop_times@);
    best
}

/// The stop of a call that is put at none.
pub const NO_STOP: usize = usize::MAX;

/// Where the calls are put.
pub open spec fn spots_of(
    calls: Seq<Sighting>,
    stop_times: Seq<StopTime>,
    terms: Terms,
) -> Seq<Option<Spot>> {
    Seq::new(calls.len(), |i: int| spot_of(calls[i], stop_times, terms))
}

/// How late the calls are that are put somewhere, in order.
pub open spec fn delays_of(spots: Seq<Option<Spot>>) -> Seq<i64>
    decreases spots.len(),
{
    if spots.len() == 0 {
        seq![]
    } else {
        match spots.last() {
            Some(spot) => delays_of(spots.drop_last()).push(spot.delay as i64),
            None => delays_of(spots.drop_last()),
        }
    }
}

/// The sum of the delays, early or late.
pub open spec fn total_of(delays: Seq<i64>) -> int
    decreases delays.len(),
{
    if delays.len() == 0 {
        0
    } else {
        total_of(delays.drop_last()) + clock::gap(delays.last() as int, 0)
    }
}

/// The greatest of the delays, early or late.
pub open spec fn most_of(delays: Seq<i64>) -> int
    decreases delays.len(),
{
    if delays.len() == 0 {
        0
    } else {
        scoring::greater(most_of(delays.drop_last()), clock::gap(delays.last() as int, 0))
    }
}

/// Whether a call is put at a stop for the station alone.
pub open spec fn one_by_station(spots: Seq<Option<Spot>>) -> bool {
    exists|i: int|
        0 <= i < spots.len() && #[trigger] spots[i] is Some && spots[i]->0.by_station
}

/// The stops of the first `count` calls of a journey.
pub open spec fn seats_of(
    calls: Seq<Sighting>,
    spots: Seq<Option<Spot>>,
    count: int,
) -> Seq<usize>
    decreases spots.len(),
{
    if spots.len() == 0 {
        Seq::new(count as nat, |i: int| NO_STOP)
    } else {
        let before = seats_of(calls, spots.drop_last(), count);
        match spots.last() {
            Some(spot) => before.update(calls[spots.len() - 1].index, spot.stop),
            None => before,
        }
    }
}

/// How well the calls agree with a trip on a day.
#[derive(Debug, Clone)]
pub struct AdaptiveScore {
    pub trip_id: String,
    pub service_date: i32,
    pub matched_calls: usize,
    pub total_difference: i128,
    pub mean_difference: i64,
    pub max_difference: i64,
    pub stop_indices: Vec<usize>,
    pub used_parent_station_match: bool,
}

/// How well the calls agree with a trip on a day.
#[verifier::ext_equal]
pub ghost struct Rating {
    pub trip_id: Seq<char>,
    pub day: i32,
    pub matched: int,
    pub total: int,
    pub mean: int,
    pub most: int,
    pub at: Seq<usize>,
    pub by_station: bool,
}

impl View for AdaptiveScore {
    type V = Rating;

    open spec fn view(&self) -> Rating {
        Rating {
            trip_id: self.trip_id@,
            day: self.service_date,
            matched: self.matched_calls as int,
            total: self.total_difference as int,
            mean: self.mean_difference as int,
            most: self.max_difference as int,
            at: self.stop_indices@,
            by_station: self.used_parent_station_match,
        }
    }
}

/// The rating that there may be.
pub open spec fn rating_view(score: Option<AdaptiveScore>) -> Option<Rating> {
    match score {
        Some(found) => Some(found@),
        None => None,
    }
}

/// The rating of a trip on a day by where the calls are put.
pub open spec fn rating_of(
    trip: Trip,
    day: i32,
    calls: Seq<Sighting>,
    spots: Seq<Option<Spot>>,
    count: int,
) -> Rating {
    let delays = delays_of(spots);
    Rating {
        trip_id: trip.id@,
        day,
        matched: delays.len() as int,
        total: total_of(delays),
        mean: total_of(delays) / (delays.len() as int),
        most: most_of(delays),
        at: seats_of(calls, spots, count),
        by_station: one_by_station(spots),
    }
}

/// How many calls must be put at stops: two, and half of them.
pub open spec fn needed(calls: int) -> int {
    if (calls + 1) / 2 > 2 {
        (calls + 1) / 2
    } else {
        2
    }
}

/// The rating of a trip on a day, each call taken by itself; none where too few calls are put at
/// stops.
pub open spec fn unordered_rating(
    trip: Trip,
    calls: Seq<Sighting>,
    terms: Terms,
    count: int,
) -> Option<Rating> {
    let spots = spots_of(calls, trip.stop_times@, terms);
    if delays_of(spots).len() < needed(calls.len() as int) {
        None
    } else {
        Some(rating_of(trip, terms.day, calls, spots, count))
    }
}

/// The upper of the middle values.
pub open spec fn median_of(values: Seq<i64>) -> i64 {
    order::ranked(values)[(values.len() / 2) as int]
}

/// The distances of the values from one value.
pub open spec fn distances(values: Seq<i64>, from: i64) -> Seq<i64> {
    Seq::new(values.len(), |i: int| clock::gap(values[i] as int, from as int) as i64)
}

/// The median distance of the values from their median.
pub open spec fn spread_of(values: Seq<i64>) -> i64 {
    median_of(distances(values, median_of(values)))
}

/// The spread of delays up to which a vehicle is on a trip of a route, in seconds.
pub open spec fn spread_limit(route: Seq<char>) -> int {
    if text::occurs(route, "Metro"@) {
        300
    } else {
        480
    }
}

/// The rating of a trip on a day for calls that are points at which a vehicle was seen; none where
/// none is put at a stop or their delays differ too much.
pub open spec fn trajectory_rating(
    trip: Trip,
    calls: Seq<Sighting>,
    terms: Terms,
    count: int,
) -> Option<Rating> {
    let spots = spots_of(calls, trip.stop_times@, terms);
    let delays = delays_of(spots);
    if delays.len() == 0 || spread_of(delays) > spread_limit(trip.route_id@) {
        None
    } else {
        Some(rating_of(trip, terms.day, calls, spots, count))
    }
}

spec fn placings_view(placings: Seq<Option<Placing>>) -> Seq<Option<Spot>> {
    Seq::new(placings.len(), |i: int| placing_view(placings[i]))
}

spec fn are_bounded(placings: Seq<Option<Placing>>) -> bool {
    forall|i: int|
        0 <= i < placings.len() ==> (#[trigger] placings[i] matches Some(found) ==> -MAX_DIFFERENCE
            <= found.delay <= MAX_DIFFERENCE)
}

fn place_calls(
    calls: &Vec<ResolvedCall>,
    trip: &Trip,
    service_date: i32,
    timezone: &str,
    gtfs: &Gtfs,
    early_seconds: i64,
    late_seconds: i64,
    Ghost(count): Ghost<int>,
) -> (r: Vec<Option<Placing>>)
    requires
        are_seen(sightings(calls@), count),
    ensures
        placings_view(r@) == spots_of(
            sightings(calls@),
            trip.stop_times@,
            Terms {
                all: gtfs.stops@,
                day: service_date,
                zone: timezone@,
                early: early_seconds as int,
                late: late_seconds as int,
            },
        ),
        are_bounded(r@),
{
    let ghost terms = Terms {
        all: gtfs.stops@,
        day: service_date,
        zone: timezone@,
        early: early_seconds as int,
        late: late_seconds as int,
    };
    let mut placings: Vec<Option<Placing>> = Vec::new();
    let mut i: usize = 0;
    while i < calls.len()
        invariant
            i <= calls@.len(),
            are_seen(sightings(calls@), count),
            terms == (Terms {
                all: gtfs.stops@,
                day: service_date,
                zone: timezone@,
                early: early_seconds as int,
                late: late_seconds as int,
            }),
            placings@.len() == i,
            are_bounded(placings@),
            forall|k: int|
                0 <= k < i ==> placing_view(#[trigger] placings@[k]) == spot_of(
                    calls@[k]@,
                    trip.stop_times@,
                    terms,
                ),
        decreases calls@.len() - i,
    {
        assert(sightings(calls@)[i as int] == calls@[i as int]@);
        placings.push(
            place_call(
                &calls[i],
                trip,
                service_date,
                timezone,
                gtfs,
                early_seconds,
                late_seconds,
            ),
        );
        i = i + 1;
    }
    assert(placings_view(placings@) =~= spots_of(
        sightings(calls@),
        trip.stop_times@,
        terms,
    ));
    placings
}

fn delays_in(placings: &Vec<Option<Placing>>) -> (r: Vec<i64>)
    requires
        are_bounded(placings@),
    ensures
        r@ == delays_of(placings_view(placings@)),
        forall|i: int|
            0 <= i < r@.len() ==> -MAX_DIFFERENCE <= #[trigger] r@[i] <= MAX_DIFFERENCE,
{
    let ghost spots = placings_view(placings@);
    let mut delays: Vec<i64> = Vec::new();
    let mut i: usize = 0;
    while i < placings.len()
        invariant
            i <= placings@.len(),
            spots == placings_view(placings@),
            are_bounded(placings@),
            delays@ == delays_of(spots.take(i as int)),
            forall|k: int|
                0 <= k < delays@.len() ==> -MAX_DIFFERENCE <= #[trigger] delays@[k]
                    <= MAX_DIFFERENCE,
        decreases placings@.len() - i,
    {
        assert(spots.take(i + 1).drop_last() =~= spots.take(i as int));
        assert(spots.take(i + 1).last() == placing_view(placings@[i as int]));
        if let Some(placing) = placings[i] {
            assert(placings@[i as int] == Some(placing));
            delays.push(placing.delay);
        }
        i = i + 1;
    }
    assert(spots.take(i as int) =~= spots);
    delays
}

fn seats_in(
    calls: &Vec<ResolvedCall>,
    placings: &Vec<Option<Placing>>,
    call_count: usize,
) -> (r: Vec<usize>)
    requires
        are_seen(sightings(calls@), call_count as int),
        placings@.len() == calls@.len(),
    ensures
        r@ == seats_of(sightings(calls@), placings_view(placings@), call_count as int),
{
    let ghost spots = placings_view(placings@);
    let mut seats: Vec<usize> = Vec::new();
    let mut k: usize = 0;
    while k < call_count
        invariant
            k <= call_count,
            seats@.len() == k,
            forall|i: int| 0 <= i < k ==> #[trigger] seats@[i] == NO_STOP,
        decreases call_count - k,
    {
        seats.push(NO_STOP);
        k = k + 1;
    }
    let mut i: usize = 0;
    assert(seats@ =~= seats_of(sightings(calls@), spots.take(0), call_count as int));
    while i < placings.len()
        invariant
            i <= placings@.len(),
            placings@.len() == calls@.len(),
            are_seen(sightings(calls@), call_count as int),
            spots == placings_view(placings@),
            seats@.len() == call_count,
            seats@ == seats_of(sightings(calls@), spots.take(i as int), call_count as int),
        decreases placings@.len() - i,
    {
        assert(spots.take(i + 1).drop_last() =~= spots.take(i as int));
        assert(spots.take(i + 1).last() == placing_view(placings@[i as int]));
        assert(sightings(calls@)[i as int] == calls@[i as int]@);
        if let Some(placing) = placings[i] {
            seats[calls[i].original_index] = placing.stop;
        }
        i = i + 1;
    }
    assert(spots.take(i as int) =~= spots);
    seats
}

fn is_any_by_station(placings: &Vec<Option<Placing>>) -> (r: bool)
    ensures
        r == one_by_station(placings_view(placings@)),
{
    let ghost spots = placings_view(placings@);
    let mut i: usize = 0;
    while i < placings.len()
        invariant
            i <= placings@.len(),
            spots == placings_view(placings@),
            forall|k: int|
                0 <= k < i ==> !(#[trigger] spots[k] is Some && spots[k]->0.by_station),
        decreases placings@.len() - i,
    {
        assert(spots[i as int] == placing_view(placings@[i as int]));
        if let Some(placing) = placings[i] {
            if placing.by_station {
                return true;
            }
        }
        i = i + 1;
    }
    false
}

/// The score of a trip on a day by where the calls are put.
fn rate(
    trip: &Trip,
    service_date: i32,
    calls: &Vec<ResolvedCall>,
    placings: &Vec<Option<Placing>>,
    delays: &Vec<i64>,
    call_count: usize,
) -> (r: AdaptiveScore)
    requires
        are_seen(sightings(calls@), call_count as int),
        placings@.len() == calls@.len(),
        are_bounded(placings@),
        delays@ == delays_of(placings_view(placings@)),
        delays@.len() > 0,
        forall|i: int|
            0 <= i < delays@.len() ==> -MAX_DIFFERENCE <= #[trigger] delays@[i] <= MAX_DIFFERENCE,
    ensures
        r@ == rating_of(
            *trip,
            service_date,
            sightings(calls@),
            placings_view(placings@),
            call_count as int,
        ),
{
    let mut total: i128 = 0;
    let mut max_difference: i64 = 0;
    let mut i: usize = 0;
    while i < delays.len()
        invariant
            i <= delays@.len(),
            forall|k: int|
                0 <= k < delays@.len() ==> -MAX_DIFFERENCE <= #[trigger] delays@[k]
                    <= MAX_DIFFERENCE,
            total == total_of(delays@.take(i as int)),
            0 <= total <= MAX_DIFFERENCE * i,
            max_difference == most_of(delays@.take(i as int)),
        decreases delays@.len() - i,
    {
        assert(delays@.take(i + 1).drop_last() =~= delays@.take(i as int));
        assert(delays@.take(i + 1).last() == delays@[i as int]);
        let size: i64 = magnitude(delays[i]);
        total = total + size as i128;
        if max_difference < size {
            max_difference = size;
        }
        i = i + 1;
    }
    assert(delays@.take(i as int) =~= delays@);
    let mean: u128 = total as u128 / delays.len() as u128;
    assert(0 <= mean <= MAX_DIFFERENCE) by {
        let count = delays@.len() as int;
        assert(total as int / count <= 8_600_000_000_000) by (nonlinear_arith)
            requires
                count > 0,
                0 <= total <= 8_600_000_000_000 * count,
        ;
    }
    AdaptiveScore {
        trip_id: trip.id.clone(),
        service_date,
        matched_calls: delays.len(),
        total_difference: total,
        mean_difference: mean as i64,
        max_difference,
        stop_indices: seats_in(calls, placings, call_count),
        used_parent_station_match: is_any_by_station(placings),
    }
}

/// The score of a trip on a day, each call taken by itself.
pub fn score_unordered_calls(
    trip: &Trip,
    calls: &Vec<ResolvedCall>,
    service_date: i32,
    timezone: &str,
    gtfs: &Gtfs,
    early_seconds: i64,
    late_seconds: i64,
    call_count: usize,
) -> (r: Option<AdaptiveScore>)
    requires
        are_seen(sightings(calls@), call_count as int),
    ensures
        rating_view(r) == unordered_rating(
            *trip,
            sightings(calls@),
            Terms {
                all: gtfs.stops@,
                day: service_date,
                zone: timezone@,
                early: early_seconds as int,
                late: late_seconds as int,
            },
            call_count as int,
        ),
{
    let half: usize = calls.len() / 2 + calls.len() % 2;
    let required: usize = if half > 2 {
        half
    } else {
        2
    };
    let placings = place_calls(
        calls,
        trip,
        service_date,
        timezone,
        gtfs,
        early_seconds,
        late_seconds,
        Ghost(call_count as int),
    );
    assert(placings_view(placings@).len() == placings@.len());
    let delays = delays_in(&placings);
    if delays.len() < required {
        return None;
    }
    Some(rate(trip, service_date, calls, &placings, &delays, call_count))
}

fn copy_values(values: &Vec<i64>) -> (r: Vec<i64>)
    ensures
        r@ == values@,
{
    let mut out: Vec<i64> = Vec::new();
    let mut i: usize = 0;
    while i < values.len()
        invariant
            i <= values@.len(),
            out@ == values@.take(i as int),
        decreases values@.len() - i,
    {
        out.push(values[i]);
        assert(out@ =~= values@.take(i + 1));
        i = i + 1;
    }
    assert(values@.take(i as int) =~= values@);
    out
}

/// The upper of the middle values.
pub fn median(values: &Vec<i64>) -> (r: i64)
    requires
        values@.len() > 0,
    ensures
        r == median_of(values@),
        values@.contains(r),
{
    let mut sorted = copy_values(values);
    sort_by_rank(&mut sorted);
    proof {
        order::ranked_is_a_stable_sort(values@);
        values@.to_multiset_ensures();
        sorted@.to_multiset_ensures();
        let r = sorted@[(values@.len() / 2) as int];
        assert(sorted@.contains(r));
        assert(values@.to_multiset().count(r) > 0);
    }
    sorted[values.len() / 2]
}

/// The law of the median: more than half of the values are not above it, and at least half are not
/// below it.
pub proof fn median_is_in_the_middle(values: Seq<i64>)
    requires
        values.len() > 0,
    ensures
        2 * values.filter(|v: i64| v <= median_of(values)).len() > values.len(),
        2 * values.filter(|v: i64| v >= median_of(values)).len() >= values.len(),
{
    let m = median_of(values);
    let sorted = order::ranked(values);
    let k = (values.len() / 2) as int;
    order::ranked_is_a_stable_sort(values);
    assert forall|i: int| 0 <= i <= k implies #[trigger] sorted[i] <= m by {
        if i < k {
            assert(!sorted[k].before(sorted[i]));
        }
    }
    assert forall|i: int| k <= i < sorted.len() implies #[trigger] sorted[i] >= m by {
        if i > k {
            assert(!sorted[i].before(sorted[k]));
        }
    }
    let low = |v: i64| v <= m;
    let high = |v: i64| v >= m;
    all_kept(sorted.take(k + 1), low);
    all_kept(sorted.skip(k), high);
    assert(sorted =~= sorted.take(k + 1) + sorted.skip(k + 1));
    assert(sorted =~= sorted.take(k) + sorted.skip(k));
    Seq::filter_distributes_over_add(sorted.take(k + 1), sorted.skip(k + 1), low);
    Seq::filter_distributes_over_add(sorted.take(k), sorted.skip(k), high);
    same_kept(values, sorted, low);
    same_kept(values, sorted, high);
}

proof fn all_kept(values: Seq<i64>, pred: spec_fn(i64) -> bool)
    requires
        forall|i: int| 0 <= i < values.len() ==> pred(#[trigger] values[i]),
    ensures
        values.filter(pred) == values,
    decreases values.len(),
{
    reveal(Seq::filter);
    if values.len() > 0 {
        let front = values.drop_last();
        assert forall|i: int| 0 <= i < front.len() implies pred(#[trigger] front[i]) by {
            assert(front[i] == values[i]);
        }
        all_kept(front, pred);
        assert(pred(values[values.len() - 1]));
        assert(values =~= front.push(values.last()));
    }
}

/// Lists of the same values keep as many of them.
proof fn same_kept(a: Seq<i64>, b: Seq<i64>, pred: spec_fn(i64) -> bool)
    requires
        a.to_multiset() == b.to_multiset(),
    ensures
        a.filter(pred).len() == b.filter(pred).len(),
    decreases a.len(),
{
    a.to_multiset_ensures();
    b.to_multiset_ensures();
    reveal(Seq::filter);
    if a.len() > 0 {
        let x = a.last();
        assert(a[a.len() - 1] == x);
        assert(a.contains(x));
        assert(b.to_multiset().count(x) > 0);
        let j = choose|j: int| 0 <= j < b.len() && b[j] == x;
        let left = b.take(j);
        let right = b.skip(j + 1);
        assert(b =~= left + seq![x] + right);
        let less = left + right;
        let front = a.drop_last();
        front.to_multiset_ensures();
        less.to_multiset_ensures();
        assert(a =~= front.push(x));
        assert(b =~= less.insert(j, x));
        vstd::seq_lib::to_multiset_insert(less, j, x);
        assert(front.to_multiset() =~= less.to_multiset()) by {
            assert(front.to_multiset().insert(x) == less.to_multiset().insert(x));
            assert forall|v: i64| front.to_multiset().count(v) == less.to_multiset().count(v) by {
                assert(front.to_multiset().insert(x).count(v) == less.to_multiset().insert(x).count(
                    v,
                ));
            }
        }
        same_kept(front, less, pred);
        Seq::filter_distributes_over_add(left, right, pred);
        Seq::filter_distributes_over_add(left + seq![x], right, pred);
        Seq::filter_distributes_over_add(left, seq![x], pred);
        assert(seq![x].drop_last() =~= Seq::<i64>::empty());
        assert(seq![x].filter(pred).len() == (if pred(x) {
            1int
        } else {
            0
        })) by {
            assert(seq![x].last() == x);
            assert(Seq::<i64>::empty().filter(pred) =~= Seq::<i64>::empty());
        }
    } else {
        assert(b.len() == 0);
        assert(a =~= b);
    }
}

/// The score of a trip on a day for calls that are points at which a vehicle was seen.
pub fn score_operator_trajectory(
    trip: &Trip,
    calls: &Vec<ResolvedCall>,
    service_date: i32,
    timezone: &str,
    gtfs: &Gtfs,
    early_seconds: i64,
    late_seconds: i64,
    call_count: usize,
) -> (r: Option<AdaptiveScore>)
    requires
        are_seen(sightings(calls@), call_count as int),
    ensures
        rating_view(r) == trajectory_rating(
            *trip,
            sightings(calls@),
            Terms {
                all: gtfs.stops@,
                day: service_date,
                zone: timezone@,
                early: early_seconds as int,
                late: late_seconds as int,
            },
            call_count as int,
        ),
{
    let placings = place_calls(
        calls,
        trip,
        service_date,
        timezone,
        gtfs,
        early_seconds,
        late_seconds,
        Ghost(call_count as int),
    );
    assert(placings_view(placings@).len() == placings@.len());
    let delays = delays_in(&placings);
    if delays.len() == 0 {
        return None;
    }
    let middle: i64 = median(&delays);
    let ghost apart = distances(delays@, middle);
    let mut deviations: Vec<i64> = Vec::new();
    let mut i: usize = 0;
    assert(-MAX_DIFFERENCE <= middle <= MAX_DIFFERENCE);
    while i < delays.len()
        invariant
            i <= delays@.len(),
            forall|k: int|
                0 <= k < delays@.len() ==> -MAX_DIFFERENCE <= #[trigger] delays@[k]
                    <= MAX_DIFFERENCE,
            -MAX_DIFFERENCE <= middle <= MAX_DIFFERENCE,
            apart == distances(delays@, middle),
            deviations@ == apart.take(i as int),
        decreases delays@.len() - i,
    {
        assert(-MAX_DIFFERENCE <= delays@[i as int] <= MAX_DIFFERENCE);
        deviations.push(magnitude(delays[i] - middle));
        assert(deviations@ =~= apart.take(i + 1));
        i = i + 1;
    }
    assert(deviations@ =~= apart);
    let spread: i64 = median(&deviations);
    let limit: i64 = if text_occurs(trip.route_id.as_str(), "Metro") {
        300
    } else {
        480
    };
    if spread > limit {
        return None;
    }
    Some(rate(trip, service_date, calls, &placings, &delays, call_count))
}

/// Whether one rating is ahead of another: by more calls that are put at stops, else by a lesser
/// mean, else by a lesser greatest, else by a lesser sum of the delays.
pub open spec fn outranks(a: Rating, b: Rating) -> bool {
    ||| a.matched > b.matched
    ||| a.matched == b.matched && a.mean < b.mean
    ||| a.matched == b.matched && a.mean == b.mean && a.most < b.most
    ||| a.matched == b.matched && a.mean == b.mean && a.most == b.most && a.total < b.total
}

impl AdaptiveScore {
    /// Whether this score is ahead of the other.
    pub fn is_better_than(&self, other: &Self) -> (r: bool)
        ensures
            r == outranks(self@, other@),
    {
        if self.matched_calls != other.matched_calls {
            self.matched_calls > other.matched_calls
        } else if self.mean_difference != other.mean_difference {
            self.mean_difference < other.mean_difference
        } else if self.max_difference != other.max_difference {
            self.max_difference < other.max_difference
        } else {
            self.total_difference < other.total_difference
        }
    }
}

/// The first of the ratings that no other is ahead of.
pub open spec fn top_rating(all: Seq<Option<Rating>>) -> Option<Rating>
    decreases all.len(),
{
    if all.len() == 0 {
        None
    } else {
        let before = top_rating(all.drop_last());
        match all.last() {
            Some(new) => if before is None || outranks(new, before->0) {
                Some(new)
            } else {
                before
            },
            None => before,
        }
    }
}

/// The law of `top_rating`: it is one of the ratings, and no other is ahead of it.
pub proof fn top_rating_is_not_outranked(all: Seq<Option<Rating>>)
    ensures
        top_rating(all) is Some ==> all.contains(top_rating(all)),
        forall|i: int|
            0 <= i < all.len() && #[trigger] all[i] is Some ==> top_rating(all) is Some
                && !outranks(all[i]->0, top_rating(all)->0),
    decreases all.len(),
{
    if all.len() > 0 {
        let front = all.drop_last();
        top_rating_is_not_outranked(front);
        assert(all.last() == all[all.len() - 1]);
        if top_rating(front) is Some {
            let k = choose|k: int| 0 <= k < front.len() && front[k] == top_rating(front);
            assert(all[k] == front[k]);
        }
        assert forall|i: int| 0 <= i < all.len() && #[trigger] all[i] is Some implies top_rating(
            all,
        ) is Some && !outranks(all[i]->0, top_rating(all)->0) by {
            if i < front.len() {
                assert(all[i] == front[i]);
            }
        }
    }
}

fn keep_top(best: Option<AdaptiveScore>, new: Option<AdaptiveScore>, Ghost(seen): Ghost<
    Seq<Option<Rating>>,
>) -> (r: Option<AdaptiveScore>)
    requires
        rating_view(best) == top_rating(seen),
    ensures
        rating_view(r) == top_rating(seen.push(rating_view(new))),
{
    assert(seen.push(rating_view(new)).drop_last() =~= seen);
    match new {
        Some(found) => match best {
            Some(old_score) => if found.is_better_than(&old_score) {
                Some(found)
            } else {
                Some(old_score)
            },
            None => Some(found),
        },
        None => best,
    }
}

/// How far a destination counts when trips are looked for.
#[derive(Debug, Clone, Copy, PartialEq, Eq, Structural)]
pub enum DestinationMode {
    /// A trip must end there.
    Terminus,
    /// A trip must stop there.
    AnyStop,
    /// It does not count.
    Ignored,
}

/// Whether a stop is one of the destinations or has the station of one.
pub open spec fn is_at(
    all: Map<Seq<char>, Stop>,
    destinations: Seq<Seq<char>>,
    stop: Seq<char>,
) -> bool {
    destinations.contains(stop) || shares_station(all, destinations, stop)
}

/// Whether a trip goes to one of the destinations, if there are any.
pub open spec fn goes_to(
    trip: Trip,
    destinations: Seq<Seq<char>>,
    all: Map<Seq<char>, Stop>,
    mode: DestinationMode,
) -> bool {
    destinations.len() == 0 || match mode {
        DestinationMode::Terminus => trip.stop_times@.len() > 0 && is_at(
            all,
            destinations,
            trip.stop_times@.last().stop_id@,
        ),
        DestinationMode::AnyStop => exists|i: int|
            0 <= i < trip.stop_times@.len() && is_at(
                all,
                destinations,
                (#[trigger] trip.stop_times@[i]).stop_id@,
            ),
        DestinationMode::Ignored => true,
    }
}

fn stops_at(destinations: &Vec<String>, stop_id: &str, gtfs: &Gtfs) -> (r: bool)
    ensures
        r == is_at(gtfs.stops@, text::texts(destinations@), stop_id@),
{
    list_contains(destinations, stop_id) || has_station_of(destinations, stop_id, &gtfs.stops)
}

/// Whether a trip goes to one of the destinations, if there are any.
pub fn destination_matches(
    trip: &Trip,
    destination_aliases: &Vec<String>,
    gtfs: &Gtfs,
    mode: DestinationMode,
) -> (r: bool)
    ensures
        r == goes_to(*trip, text::texts(destination_aliases@), gtfs.stops@, mode),
{
    assert(text::texts(destination_aliases@).len() == destination_aliases@.len());
    if destination_aliases.len() == 0 {
        return true;
    }
    match mode {
        DestinationMode::Terminus => trip.stop_times.len() > 0 && stops_at(
            destination_aliases,
            trip.stop_times[trip.stop_times.len() - 1].stop_id.as_str(),
            gtfs,
        ),
        DestinationMode::AnyStop => {
            let mut i: usize = 0;
            while i < trip.stop_times.len()
                invariant
                    i <= trip.stop_times@.len(),
                    destination_aliases@.len() > 0,
                    mode == DestinationMode::AnyStop,
                    text::texts(destination_aliases@).len() == destination_aliases@.len(),
                    forall|k: int|
                        0 <= k < i ==> !is_at(
                            gtfs.stops@,
                            text::texts(destination_aliases@),
                            (#[trigger] trip.stop_times@[k]).stop_id@,
                        ),
                decreases trip.stop_times@.len() - i,
            {
                if stops_at(destination_aliases, trip.stop_times[i].stop_id.as_str(), gtfs) {
                    return true;
                }
                i = i + 1;
            }
            false
        },
        DestinationMode::Ignored => true,
    }
}

/// The window of delays in seconds: the earliest and the latest that a vehicle may be.
pub open spec fn window_of(route_type: Option<Seq<char>>, operator_trajectory: bool) -> (int, int) {
    if operator_trajectory {
        (-1200, 1800)
    } else {
        match route_type {
            Some(name) => if name == "Tramway"@ || name == "Subway"@ || name == "Metro"@ || name
                == "Tram"@ {
                (-300, 900)
            } else if name == "Bus"@ {
                (-300, 1800)
            } else {
                (-300, 1200)
            },
            None => (-300, 1200),
        }
    }
}

/// The window of delays in seconds.
pub fn time_window(route_type: Option<&str>, operator_trajectory: bool) -> (r: (i64, i64))
    ensures
        (r.0 as int, r.1 as int) == window_of(text::opt_text(route_type), operator_trajectory),
{
    if operator_trajectory {
        return (-1200, 1800);
    }
    match route_type {
        Some(name) => if text_eq(name, "Tramway") || text_eq(name, "Subway") || text_eq(
            name,
            "Metro",
        ) || text_eq(name, "Tram") {
            (-300, 900)
        } else if text_eq(name, "Bus") {
            (-300, 1800)
        } else {
            (-300, 1200)
        },
        None => (-300, 1200),
    }
}

/// Whether an operator reports points at which its vehicles were seen.
pub open spec fn reports_points(operator: Seq<char>) -> bool {
    text::begins(operator, "RATP-SIV:"@) || text::begins(operator, "MeC_Bus_PC:Operator:"@)
}

/// Whether an operator reports points at which its vehicles were seen.
pub fn is_point_observation_operator(value: &str) -> (r: bool)
    ensures
        r == reports_points(value@),
{
    text_begins(value, "RATP-SIV:") || text_begins(value, "MeC_Bus_PC:Operator:")
}

/// The zone of the first agency that names one, of those with the given identifier if one is
/// given; Paris where there is none.
pub open spec fn zone_among(agencies: Seq<Agency>, agency: Option<Seq<char>>) -> Seq<char>
    decreases agencies.len(),
{
    if agencies.len() == 0 {
        clock::DEFAULT_ZONE@
    } else if (agency is None || text::opt_string(agencies[0].id) == agency) && clock::is_zone(
        agencies[0].timezone@,
    ) {
        agencies[0].timezone@
    } else {
        zone_among(agencies.drop_first(), agency)
    }
}

/// The zone of a route.
pub open spec fn zone_of(schedule: Gtfs, route: Seq<char>) -> Seq<char> {
    zone_among(
        schedule.agencies@,
        if schedule.routes@.contains_key(route) {
            text::opt_string(schedule.routes@[route].agency_id)
        } else {
            None
        },
    )
}

/// The zone of a route.
pub fn timezone_for_route(gtfs: &Gtfs, route_id: &str) -> (r: String)
    ensures
        r@ == zone_of(*gtfs, route_id@),
        clock::is_zone(r@),
{
    let agency_id: Option<&String> = match gtfs.routes.get(route_id) {
        Some(route) => match &route.agency_id {
            Some(id) => Some(id),
            None => None,
        },
        None => None,
    };
    let ghost agency = match agency_id {
        Some(id) => Some(id@),
        None => None,
    };
    let agencies = &gtfs.agencies;
    let mut i: usize = 0;
    assert(agencies@.skip(0) =~= agencies@);
    while i < agencies.len()
        invariant
            i <= agencies@.len(),
            *agencies == gtfs.agencies,
            agency == (match agency_id {
                Some(id) => Some(id@),
                None => None,
            }),
            zone_of(*gtfs, route_id@) == zone_among(agencies@.skip(i as int), agency),
        decreases agencies@.len() - i,
    {
        assert(agencies@.skip(i as int)[0] == agencies@[i as int]);
        assert(agencies@.skip(i as int).drop_first() =~= agencies@.skip(i + 1));
        let counts = match agency_id {
            Some(wanted) => match &agencies[i].id {
                Some(id) => text_eq(id.as_str(), wanted.as_str()),
                None => false,
            },
            None => true,
        };
        if counts && is_zone_name(agencies[i].timezone.as_str()) {
            return agencies[i].timezone.clone();
        }
        i = i + 1;
    }
    default_zone()
}

/// The earliest moment of the sightings.
pub open spec fn first_moment(calls: Seq<Sighting>) -> Option<i64>
    decreases calls.len(),
{
    if calls.len() == 0 {
        None
    } else {
        matching::earlier(first_moment(calls.drop_last()), Some(calls.last().moment))
    }
}

/// The day on which the calls were seen and the two days before it.
pub open spec fn days_seen(calls: Seq<Sighting>, zone: Seq<char>) -> Seq<i32> {
    match first_moment(calls) {
        Some(moment) => match clock::zone_day(moment, zone) {
            Some(day) => clock::recent_days(day),
            None => seq![],
        },
        None => seq![],
    }
}

/// The day on which the calls were seen and the two days before it; today and the two days before
/// it where there are no calls. Nothing is said of which day today is.
pub fn candidate_service_dates(calls: &Vec<ResolvedCall>, timezone: &str) -> (r: Vec<i32>)
    requires
        forall|i: int|
            0 <= i < calls@.len() ==> clock::is_stamp((#[trigger] calls@[i]).observed as int),
    ensures
        calls@.len() > 0 && clock::is_zone(timezone@) ==> r@ == days_seen(
            sightings(calls@),
            timezone@,
        ),
        clock::is_zone(timezone@) ==> exists|day: i32|
            clock::in_calendar(day as int) && r@ == #[trigger] clock::recent_days(day),
        !clock::is_zone(timezone@) ==> r@.len() == 0,
        forall|i: int| 0 <= i < r@.len() ==> clock::in_calendar(#[trigger] r@[i] as int),
{
    let ghost seen = sightings(calls@);
    let mut first: Option<i64> = None;
    let mut i: usize = 0;
    while i < calls.len()
        invariant
            i <= calls@.len(),
            seen == sightings(calls@),
            forall|k: int|
                0 <= k < calls@.len() ==> clock::is_stamp((#[trigger] calls@[k]).observed as int),
            first == first_moment(seen.take(i as int)),
            first matches Some(t) ==> clock::is_stamp(t as int),
            i > 0 ==> first is Some,
        decreases calls@.len() - i,
    {
        assert(seen.take(i + 1).drop_last() =~= seen.take(i as int));
        assert(seen.take(i + 1).last() == calls@[i as int]@);
        let observed: i64 = calls[i].observed;
        first = match first {
            Some(t) => if observed < t {
                Some(observed)
            } else {
                Some(t)
            },
            None => Some(observed),
        };
        i = i + 1;
    }
    assert(seen.take(i as int) =~= seen);
    let seen_on = match first {
        Some(timestamp) => local_day(timestamp, timezone),
        None => None,
    };
    let day = match seen_on {
        Some(day) => Some(day),
        None => current_day(timezone),
    };
    match day {
        Some(day) => service_days(day),
        None => Vec::new(),
    }
}

/// Whether a service runs on a day.
pub open spec fn is_running(schedule: Gtfs, service: Seq<char>, day: i32) -> bool {
    services::runs(
        if schedule.calendar_dates@.contains_key(service) {
            services::first_exception(schedule.calendar_dates@[service]@, day)
        } else {
            None
        },
        schedule.calendar@,
        service,
        day,
    )
}

/// Whether a service runs on a day.
pub fn service_runs_on(gtfs: &Gtfs, service_id: &str, date: i32) -> (r: bool)
    ensures
        r == is_running(*gtfs, service_id@, date),
{
    let exception = match gtfs.calendar_dates.get(service_id) {
        Some(dates) => find_first_exception(dates, date),
        None => None,
    };
    match exception {
        Some(added) => added,
        None => calendar_runs(&gtfs.calendar, service_id, date),
    }
}

/// What is looked for among the trips of a route.
pub ghost struct Search {
    pub calls: Seq<Sighting>,
    /// How many calls the journey has.
    pub count: int,
    pub days: Seq<i32>,
    pub zone: Seq<char>,
    /// Whether the calls are points at which a vehicle was seen.
    pub points: bool,
    pub early: int,
    pub late: int,
}

/// By which terms calls are put at stops on a day.
pub open spec fn terms_of(schedule: Gtfs, search: Search, day: i32) -> Terms {
    Terms {
        all: schedule.stops@,
        day,
        zone: search.zone,
        early: search.early,
        late: search.late,
    }
}

/// The ratings of a trip on the days on which it runs.
pub open spec fn ratings_on_days(
    schedule: Gtfs,
    search: Search,
    trip: Trip,
) -> Seq<Option<Rating>> {
    Seq::new(
        search.days.len(),
        |i: int|
            if !is_running(schedule, trip.service_id@, search.days[i]) {
                None
            } else if search.points {
                trajectory_rating(
                    trip,
                    search.calls,
                    terms_of(schedule, search, search.days[i]),
                    search.count,
                )
            } else {
                unordered_rating(
                    trip,
                    search.calls,
                    terms_of(schedule, search, search.days[i]),
                    search.count,
                )
            },
    )
}

/// The ratings of those trips of a route that go to the destinations.
pub open spec fn ratings_of(
    schedule: Gtfs,
    search: Search,
    ids: Seq<Seq<char>>,
    route: Seq<char>,
    destinations: Seq<Seq<char>>,
    mode: DestinationMode,
) -> Seq<Option<Rating>>
    decreases ids.len(),
{
    if ids.len() == 0 {
        seq![]
    } else {
        let front = ratings_of(schedule, search, ids.drop_last(), route, destinations, mode);
        let trip = schedule.trips@[ids.last()];
        if trip.route_id@ == route && goes_to(trip, destinations, schedule.stops@, mode) {
            front + ratings_on_days(schedule, search, trip)
        } else {
            front
        }
    }
}

/// The match that a rating makes.
pub open spec fn match_from(found: Rating) -> Match {
    Match {
        trip_id: found.trip_id,
        day: Some(found.day),
        kind: MatchKind::DirectionAndTime,
        mean: Some(found.mean),
        at: found.at,
        by_station: found.by_station,
    }
}

fn to_journey_match(score: AdaptiveScore) -> (r: JourneyMatch)
    ensures
        r@ == match_from(score@),
{
    JourneyMatch {
        trip_id: score.trip_id,
        service_date: Some(score.service_date),
        kind: MatchKind::DirectionAndTime,
        mean_abs_difference_seconds: Some(score.mean_difference),
        stop_indices: score.stop_indices,
        used_parent_station_match: score.used_parent_station_match,
    }
}

/// Whether the operator of a journey reports points at which its vehicles were seen.
pub open spec fn is_of_points(journey: Journey) -> bool {
    match journey.operator {
        Some(operator) => reports_points(operator),
        None => false,
    }
}

/// The type of a route.
pub open spec fn type_of(schedule: Gtfs, route: Seq<char>) -> Option<Seq<char>> {
    if schedule.routes@.contains_key(route) {
        Some(schedule.routes@[route].route_type@)
    } else {
        None
    }
}

/// What is looked for when a journey is matched among the trips of a route.
pub open spec fn search_of(
    schedule: Gtfs,
    journey: Journey,
    by_suffix: Map<Seq<char>, Vec<String>>,
    route: Seq<char>,
    points: bool,
) -> Search {
    let calls = journey.calls;
    let seen = sightings_of(calls, by_suffix);
    let zone = zone_of(schedule, route);
    let window = window_of(type_of(schedule, route), points);
    Search {
        calls: seen,
        count: calls.len() as int,
        days: days_seen(seen, zone),
        zone,
        points,
        early: window.0,
        late: window.1,
    }
}

/// The stops that the destination of a journey may mean.
pub open spec fn destinations_of(
    journey: Journey,
    by_suffix: Map<Seq<char>, Vec<String>>,
) -> Seq<Seq<char>> {
    match journey.destination {
        Some(reference) => stops::meant_stops(by_suffix, reference),
        None => seq![],
    }
}

/// The tolerant match of a journey: the foremost trip of its route among those that end at its
/// destination, else among those that stop there, else among all.
pub open spec fn tolerant_match(
    schedule: Gtfs,
    journey: Journey,
    by_suffix: Map<Seq<char>, Vec<String>>,
) -> Option<Match> {
    match matching::route_of(journey) {
        None => None,
        Some(route) => {
            let search = search_of(schedule, journey, by_suffix, route, is_of_points(journey));
            let ids = schedule.trips.keys();
            let to = destinations_of(journey, by_suffix);
            let at_end = top_rating(
                ratings_of(schedule, search, ids, route, to, DestinationMode::Terminus),
            );
            let at_stop = top_rating(
                ratings_of(schedule, search, ids, route, to, DestinationMode::AnyStop),
            );
            let any = top_rating(
                ratings_of(schedule, search, ids, route, to, DestinationMode::Ignored),
            );
            if search.calls.len() == 0 {
                None
            } else if at_end is Some {
                Some(match_from(at_end->0))
            } else if at_stop is Some {
                Some(match_from(at_stop->0))
            } else if any is Some {
                Some(match_from(any->0))
            } else {
                None
            }
        },
    }
}

/// A journey made ready for a search.
struct Query {
    calls: Vec<ResolvedCall>,
    call_count: usize,
    days: Vec<i32>,
    zone: String,
    points: bool,
    early: i64,
    late: i64,
}

impl Query {
    spec fn search(self) -> Search {
        Search {
            calls: sightings(self.calls@),
            count: self.call_count as int,
            days: self.days@,
            zone: self.zone@,
            points: self.points,
            early: self.early as int,
            late: self.late as int,
        }
    }
}

fn ask(
    journey: &EstimatedVehicleJourney,
    gtfs: &Gtfs,
    aliases: &StopAliasIndex,
    route_id: &str,
    points: bool,
) -> (r: Query)
    ensures
        are_seen(sightings(r.calls@), r.call_count as int),
        sightings(r.calls@) == sightings_of(
            journey@.calls,
            aliases.by_suffix@,
        ),
        r.calls@.len() > 0 ==> r.search() == search_of(
            *gtfs,
            journey@,
            aliases.by_suffix@,
            route_id@,
            points,
        ),
        r.points == points,
{
    let calls = resolve_calls(journey, aliases);
    let call_count: usize = match &journey.estimated_calls {
        Some(list) => list.estimated_call.len(),
        None => 0,
    };
    let zone = timezone_for_route(gtfs, route_id);
    let ghost seen = sightings(calls@);
    assert forall|i: int| 0 <= i < calls@.len() implies clock::is_stamp(
        (#[trigger] calls@[i]).observed as int,
    ) by {
        assert(seen[i] == calls@[i]@);
    }
    let days = candidate_service_dates(&calls, zone.as_str());
    let route_type: Option<&str> = match gtfs.routes.get(route_id) {
        Some(route) => Some(route.route_type.as_str()),
        None => None,
    };
    let (early, late) = time_window(route_type, points);
    Query { calls, call_count, days, zone, points, early, late }
}

fn keep_top_on_days(
    best: Option<AdaptiveScore>,
    query: &Query,
    gtfs: &Gtfs,
    trip: &Trip,
    Ghost(seen): Ghost<Seq<Option<Rating>>>,
) -> (r: Option<AdaptiveScore>)
    requires
        are_seen(sightings(query.calls@), query.call_count as int),
        rating_view(best) == top_rating(seen),
    ensures
        rating_view(r) == top_rating(seen + ratings_on_days(*gtfs, query.search(), *trip)),
{
    let ghost here = ratings_on_days(*gtfs, query.search(), *trip);
    let mut best = best;
    let mut i: usize = 0;
    assert(seen + here.take(0) =~= seen);
    while i < query.days.len()
        invariant
            i <= query.days@.len(),
            are_seen(sightings(query.calls@), query.call_count as int),
            here == ratings_on_days(*gtfs, query.search(), *trip),
            rating_view(best) == top_rating(seen + here.take(i as int)),
        decreases query.days@.len() - i,
    {
        let day: i32 = query.days[i];
        let new = if !service_runs_on(gtfs, trip.service_id.as_str(), day) {
            None
        } else if query.points {
            score_operator_trajectory(
                trip,
                &query.calls,
                day,
                query.zone.as_str(),
                gtfs,
                query.early,
                query.late,
                query.call_count,
            )
        } else {
            score_unordered_calls(
                trip,
                &query.calls,
                day,
                query.zone.as_str(),
                gtfs,
                query.early,
                query.late,
                query.call_count,
            )
        };
        assert(here[i as int] == rating_view(new));
        assert((seen + here.take(i as int)).push(rating_view(new)) =~= seen + here.take(i + 1));
        best = keep_top(best, new, Ghost(seen + here.take(i as int)));
        i = i + 1;
    }
    assert(here.take(i as int) =~= here);
    best
}

fn top_of_route(
    query: &Query,
    gtfs: &Gtfs,
    route_id: &str,
    destinations: &Vec<String>,
    mode: DestinationMode,
) -> (r: Option<AdaptiveScore>)
    requires
        are_seen(sightings(query.calls@), query.call_count as int),
    ensures
        rating_view(r) == top_rating(
            ratings_of(
                *gtfs,
                query.search(),
                gtfs.trips.keys(),
                route_id@,
                text::texts(destinations@),
                mode,
            ),
        ),
{
    let rows = gtfs.trips.len();
    let ghost ids = gtfs.trips.keys();
    let ghost search = query.search();
    let ghost to = text::texts(destinations@);
    let mut best: Option<AdaptiveScore> = None;
    let mut i: usize = 0;
    while i < rows
        invariant
            i <= rows,
            rows == ids.len(),
            ids == gtfs.trips.keys(),
            search == query.search(),
            to == text::texts(destinations@),
            are_seen(sightings(query.calls@), query.call_count as int),
            rating_view(best) == top_rating(
                ratings_of(*gtfs, search, ids.take(i as int), route_id@, to, mode),
            ),
        decreases rows - i,
    {
        let trip = gtfs.trips.value_at(i);
        proof {
            assert(ids.take(i + 1).drop_last() =~= ids.take(i as int));
            assert(ids.take(i + 1).last() == ids[i as int]);
        }
        if text_eq(trip.route_id.as_str(), route_id) && destination_matches(
            trip,
            destinations,
            gtfs,
            mode,
        ) {
            best = keep_top_on_days(
                best,
                query,
                gtfs,
                trip,
                Ghost(ratings_of(*gtfs, search, ids.take(i as int), route_id@, to, mode)),
            );
        }
        i = i + 1;
    }
    assert(ids.take(i as int) =~= ids);
    best
}

/// The tolerant match of a journey.
pub fn match_journey(
    journey: &EstimatedVehicleJourney,
    gtfs: &Gtfs,
    aliases: &StopAliasIndex,
) -> (r: Option<JourneyMatch>)
    ensures
        matching::match_view(r) == tolerant_match(*gtfs, journey@, aliases.by_suffix@),
{
    let route_id = match target_route(journey) {
        Some(route_id) => route_id,
        None => return None,
    };
    let points = match reference_value(&journey.operator_ref) {
        Some(operator) => is_point_observation_operator(operator),
        None => false,
    };
    let query = ask(journey, gtfs, aliases, route_id.as_str(), points);
    assert(sightings(query.calls@).len() == query.calls@.len());
    if query.calls.len() == 0 {
        return None;
    }
    let destinations = match reference_value(&journey.destination_ref) {
        Some(reference) => aliases.resolve(reference),
        None => Vec::new(),
    };
    assert(text::texts(destinations@) =~= destinations_of(journey@, aliases.by_suffix@));
    if let Some(score) = top_of_route(
        &query,
        gtfs,
        route_id.as_str(),
        &destinations,
        DestinationMode::Terminus,
    ) {
        return Some(to_journey_match(score));
    }
    if let Some(score) = top_of_route(
        &query,
        gtfs,
        route_id.as_str(),
        &destinations,
        DestinationMode::AnyStop,
    ) {
        return Some(to_journey_match(score));
    }
    match top_of_route(
        &query,
        gtfs,
        route_id.as_str(),
        &destinations,
        DestinationMode::Ignored,
    ) {
        Some(score) => Some(to_journey_match(score)),
        None => None,
    }
}

/// The ratings without those whose mean is too great for a remembered trip.
pub open spec fn near_ratings(all: Seq<Option<Rating>>) -> Seq<Option<Rating>> {
    Seq::new(
        all.len(),
        |i: int|
            match all[i] {
                Some(found) => if found.mean <= CACHE_MAX_MEAN_DIFFERENCE_SECONDS {
                    Some(found)
                } else {
                    None
                },
                None => None,
            },
    )
}

/// The match of a journey with a remembered trip, if the trip is of the route of the journey and
/// the journey is near enough to it.
pub open spec fn remembered_match(
    schedule: Gtfs,
    journey: Journey,
    by_suffix: Map<Seq<char>, Vec<String>>,
    trip_id: Seq<char>,
) -> Option<Match> {
    match matching::route_of(journey) {
        None => None,
        Some(route) => if schedule.trips@.contains_key(trip_id)
            && schedule.trips@[trip_id].route_id@ == route {
            let search = search_of(schedule, journey, by_suffix, route, false);
            match top_rating(
                near_ratings(ratings_on_days(schedule, search, schedule.trips@[trip_id])),
            ) {
                Some(found) => Some(match_from(found)),
                None => None,
            }
        } else {
            None
        },
    }
}

/// The match of a journey with a remembered trip.
pub fn match_cached_assignment(
    journey: &EstimatedVehicleJourney,
    gtfs: &Gtfs,
    aliases: &StopAliasIndex,
    trip_id: &str,
) -> (r: Option<JourneyMatch>)
    ensures
        matching::match_view(r) == remembered_match(
            *gtfs,
            journey@,
            aliases.by_suffix@,
            trip_id@,
        ),
{
    let trip = match gtfs.trips.get(trip_id) {
        Some(trip) => trip,
        None => return None,
    };
    let route_id = match target_route(journey) {
        Some(route_id) => route_id,
        None => return None,
    };
    if !text_eq(trip.route_id.as_str(), route_id.as_str()) {
        return None;
    }
    let query = ask(journey, gtfs, aliases, route_id.as_str(), false);
    assert(sightings(query.calls@).len() == query.calls@.len());
    let ghost near = near_ratings(ratings_on_days(*gtfs, query.search(), *trip));
    let mut best: Option<AdaptiveScore> = None;
    let mut i: usize = 0;
    while i < query.days.len()
        invariant
            i <= query.days@.len(),
            are_seen(sightings(query.calls@), query.call_count as int),
            !query.points,
            near == near_ratings(ratings_on_days(*gtfs, query.search(), *trip)),
            rating_view(best) == top_rating(near.take(i as int)),
        decreases query.days@.len() - i,
    {
        let day: i32 = query.days[i];
        let scored = if service_runs_on(gtfs, trip.service_id.as_str(), day) {
            score_unordered_calls(
                trip,
                &query.calls,
                day,
                query.zone.as_str(),
                gtfs,
                query.early,
                query.late,
                query.call_count,
            )
        } else {
            None
        };
        assert(ratings_on_days(*gtfs, query.search(), *trip)[i as int] == rating_view(scored));
        let new = match scored {
            Some(score) => if score.mean_difference <= CACHE_MAX_MEAN_DIFFERENCE_SECONDS {
                Some(score)
            } else {
                None
            },
            None => None,
        };
        assert(near[i as int] == rating_view(new));
        assert(near.take(i as int).push(rating_view(new)) =~= near.take(i + 1));
        best = keep_top(best, new, Ghost(near.take(i as int)));
        i = i + 1;
    }
    assert(near.take(i as int) =~= near);
    proof {
        if query.calls@.len() == 0 {
            nothing_without_calls(*gtfs, query.search(), *trip);
            nothing_without_calls(
                *gtfs,
                search_of(*gtfs, journey@, aliases.by_suffix@, route_id@, false),
                *trip,
            );
        }
    }
    match best {
        Some(score) => Some(to_journey_match(score)),
        None => None,
    }
}

/// Without calls no trip is near, whatever the days.
proof fn nothing_without_calls(schedule: Gtfs, search: Search, trip: Trip)
    requires
        search.calls.len() == 0,
    ensures
        top_rating(near_ratings(ratings_on_days(schedule, search, trip))) is None,
{
    let all = near_ratings(ratings_on_days(schedule, search, trip));
    assert forall|i: int| 0 <= i < all.len() implies #[trigger] all[i] is None by {
        let spots = spots_of(
            search.calls,
            trip.stop_times@,
            terms_of(schedule, search, search.days[i]),
        );
        assert(spots.len() == 0);
    }
    nothing_on_top(all);
}

proof fn nothing_on_top(all: Seq<Option<Rating>>)
    requires
        forall|i: int| 0 <= i < all.len() ==> #[trigger] all[i] is None,
    ensures
        top_rating(all) is None,
    decreases all.len(),
{
    if all.len() > 0 {
        assert(all[all.len() - 1] is None);
        assert forall|i: int| 0 <= i < all.drop_last().len() implies #[trigger] all.drop_last()[i] is None by {
            assert(all[i] is None);
        }
        nothing_on_top(all.drop_last());
    }
}

/// Whether a seat is that of the call with the given index, as some call is put.
pub open spec fn is_seat(
    calls: Seq<Sighting>,
    spots: Seq<Option<Spot>>,
    index: int,
    seat: usize,
) -> bool {
    exists|k: int|
        0 <= k < spots.len() && (#[trigger] spots[k]) is Some && calls[k].index == index
            && spots[k]->0.stop == seat
}

/// The law of the seats: each call of a journey has one, which is none or that at which it is put.
pub proof fn seats_are_spots(calls: Seq<Sighting>, spots: Seq<Option<Spot>>, count: int)
    requires
        count >= 0,
        spots.len() <= calls.len(),
        are_seen(calls, count),
    ensures
        seats_of(calls, spots, count).len() == count,
        forall|i: int|
            0 <= i < count ==> #[trigger] seats_of(calls, spots, count)[i] == NO_STOP || is_seat(
                calls,
                spots,
                i,
                seats_of(calls, spots, count)[i],
            ),
    decreases spots.len(),
{
    if spots.len() > 0 {
        let front = spots.drop_last();
        let before = seats_of(calls, front, count);
        let all = seats_of(calls, spots, count);
        seats_are_spots(calls, front, count);
        assert forall|i: int| 0 <= i < count implies #[trigger] all[i] == NO_STOP || is_seat(
            calls,
            spots,
            i,
            all[i],
        ) by {
            let n = spots.len() - 1;
            assert(spots[n] == spots.last());
            if spots.last() is Some && calls[n].index == i {
                assert(spots[n] is Some && calls[n].index == i && spots[n]->0.stop == all[i]);
            } else {
                assert(all[i] == before[i]);
                if before[i] != NO_STOP {
                    let k = choose|k: int|
                        0 <= k < front.len() && (#[trigger] front[k]) is Some && calls[k].index
                            == i && front[k]->0.stop == before[i];
                    assert(spots[k] == front[k]);
                }
            }
        }
    }
}

proof fn delays_are_few(spots: Seq<Option<Spot>>)
    ensures
        delays_of(spots).len() <= spots.len(),
    decreases spots.len(),
{
    if spots.len() > 0 {
        delays_are_few(spots.drop_last());
    }
}

/// Whether a seat is none, or a stop of a trip at which the call with the given index is within
/// the window.
pub open spec fn is_within(
    calls: Seq<Sighting>,
    trip: Trip,
    terms: Terms,
    index: int,
    seat: usize,
) -> bool {
    seat == NO_STOP || exists|k: int|
        0 <= k < calls.len() && (#[trigger] calls[k]).index == index && seat
            < trip.stop_times@.len() && delay_at(
            calls[k],
            trip.stop_times@[seat as int],
            terms,
        ) is Some
}

proof fn seats_are_within(trip: Trip, calls: Seq<Sighting>, terms: Terms, count: int)
    requires
        count >= 0,
        are_seen(calls, count),
    ensures
        ({
            let at = seats_of(calls, spots_of(calls, trip.stop_times@, terms), count);
            &&& at.len() == count
            &&& forall|i: int|
                0 <= i < count ==> is_within(calls, trip, terms, i, #[trigger] at[i])
        }),
{
    let spots = spots_of(calls, trip.stop_times@, terms);
    let at = seats_of(calls, spots, count);
    seats_are_spots(calls, spots, count);
    assert(trip.stop_times.len() == trip.stop_times@.len());
    assert forall|i: int| 0 <= i < count implies is_within(calls, trip, terms, i, #[trigger] at[i]) by {
        if at[i] != NO_STOP {
            let k = choose|k: int|
                0 <= k < spots.len() && (#[trigger] spots[k]) is Some && calls[k].index == i
                    && spots[k]->0.stop == at[i];
            spot_is_nearest(calls[k], trip.stop_times@, terms);
            assert(calls[k].index == i);
        }
    }
}

/// The law of tolerant ratings: each call of the journey has a seat, which is none or a stop of the
/// trip at which it is within the window; and enough calls are put at stops.
pub proof fn unordered_rating_holds(
    trip: Trip,
    calls: Seq<Sighting>,
    terms: Terms,
    count: int,
)
    requires
        count >= 0,
        are_seen(calls, count),
    ensures
        unordered_rating(trip, calls, terms, count) matches Some(found) ==> {
            &&& found.trip_id == trip.id@
            &&& found.day == terms.day
            &&& needed(calls.len() as int) <= found.matched <= calls.len()
            &&& found.at.len() == count
            &&& forall|i: int|
                0 <= i < count ==> is_within(calls, trip, terms, i, #[trigger] found.at[i])
        },
{
    seats_are_within(trip, calls, terms, count);
    delays_are_few(spots_of(calls, trip.stop_times@, terms));
}

/// The law of ratings of points: as that of the others, but one call is enough, and half of the
/// delays are within the limit of the spread from their median.
pub proof fn trajectory_rating_holds(
    trip: Trip,
    calls: Seq<Sighting>,
    terms: Terms,
    count: int,
)
    requires
        count >= 0,
        are_seen(calls, count),
    ensures
        trajectory_rating(trip, calls, terms, count) matches Some(found) ==> {
            let delays = delays_of(spots_of(calls, trip.stop_times@, terms));
            &&& found.trip_id == trip.id@
            &&& found.day == terms.day
            &&& 1 <= found.matched <= calls.len()
            &&& found.at.len() == count
            &&& forall|i: int|
                0 <= i < count ==> is_within(calls, trip, terms, i, #[trigger] found.at[i])
            &&& 2 * distances(delays, median_of(delays)).filter(
                |d: i64| d <= spread_of(delays),
            ).len() >= delays.len()
            &&& spread_of(delays) <= spread_limit(trip.route_id@)
        },
{
    let delays = delays_of(spots_of(calls, trip.stop_times@, terms));
    seats_are_within(trip, calls, terms, count);
    delays_are_few(spots_of(calls, trip.stop_times@, terms));
    if delays.len() > 0 {
        median_is_in_the_middle(distances(delays, median_of(delays)));
    }
}

} // verus!
