//! The directions of a route: the sequences of stops that its trips run through.

use crate::gtfs::{self, Trip};
use crate::lists::copy_list;
use crate::order::{self, list_precedes, sort_by_rank, sorted_unique, Ranked};
use crate::table::{self, Table};
use crate::text::{self, text_eq, text_precedes};
use vstd::prelude::*;

verus! {

/// A sequence of stops, and the trips of a route that run through it.
#[derive(Debug)]
pub struct DirectionPattern {
    pub stop_ids: Vec<String>,
    pub destination_stop_id: String,
    pub trip_ids: Vec<String>,
}

/// A sequence of stops, and the trips of a route that run through it.
#[verifier::ext_equal]
pub ghost struct Pattern {
    pub stops: Seq<Seq<char>>,
    pub destination: Seq<char>,
    pub trips: Seq<Seq<char>>,
}

impl View for DirectionPattern {
    type V = Pattern;

    open spec fn view(&self) -> Pattern {
        Pattern {
            stops: text::texts(self.stop_ids@),
            destination: self.destination_stop_id@,
            trips: text::texts(self.trip_ids@),
        }
    }
}

/// The order of patterns: by destination, then by the stops.
pub open spec fn pattern_less(a: Pattern, b: Pattern) -> bool {
    text::text_less(a.destination, b.destination) || (a.destination == b.destination
        && order::list_less(a.stops, b.stops))
}

impl Ranked for DirectionPattern {
    open spec fn before(self, other: Self) -> bool {
        pattern_less(self@, other@)
    }

    proof fn before_is_one_way(a: Self, b: Self) {
        if b.before(a) {
            if a@.destination == b@.destination {
                text::text_order_irreflexive(a@.destination);
                order::list_order_transitive(a@.stops, b@.stops, a@.stops);
                order::list_order_irreflexive(a@.stops);
            } else {
                text::text_order_transitive(a@.destination, b@.destination, a@.destination);
                text::text_order_irreflexive(a@.destination);
            }
        }
    }

    proof fn not_before_is_transitive(a: Self, b: Self, c: Self) {
        if c.before(a) {
            text::text_order_total(a@.destination, b@.destination);
            text::text_order_total(b@.destination, c@.destination);
            order::list_order_total(a@.stops, b@.stops);
            order::list_order_total(b@.stops, c@.stops);
            if text::text_less(a@.destination, b@.destination) && text::text_less(
                c@.destination,
                a@.destination,
            ) {
                text::text_order_transitive(c@.destination, a@.destination, b@.destination);
            }
            if order::list_less(a@.stops, b@.stops) && order::list_less(c@.stops, a@.stops) {
                order::list_order_transitive(c@.stops, a@.stops, b@.stops);
            }
        }
    }

    fn is_before(&self, other: &Self) -> (r: bool) {
        text_precedes(self.destination_stop_id.as_str(), other.destination_stop_id.as_str()) || (
        text_eq(self.destination_stop_id.as_str(), other.destination_stop_id.as_str())
            && list_precedes(&self.stop_ids, &other.stop_ids))
    }
}

/// The patterns of a list.
pub open spec fn patterns_of(list: Seq<DirectionPattern>) -> Seq<Pattern> {
    Seq::new(list.len(), |i: int| list[i]@)
}

/// The patterns of a route, none where it has no trips with stops.
pub open spec fn patterns_at(
    directions: Map<Seq<char>, Vec<DirectionPattern>>,
    route: Seq<char>,
) -> Seq<Pattern> {
    if directions.contains_key(route) {
        patterns_of(directions[route]@)
    } else {
        seq![]
    }
}

/// Whether a trip of a route runs through the given stops.
pub open spec fn runs_through(
    trips: Map<Seq<char>, Trip>,
    id: Seq<char>,
    route: Seq<char>,
    stops: Seq<Seq<char>>,
) -> bool {
    trips.contains_key(id) && trips[id].route_id@ == route && gtfs::trip_stops(trips[id]) == stops
}

/// Whether a table holds the directions of all routes of the trips: for each sequence of stops
/// that trips of a route run through, one pattern with these trips, sorted.
pub open spec fn is_direction_index(
    directions: Map<Seq<char>, Vec<DirectionPattern>>,
    trips: Map<Seq<char>, Trip>,
) -> bool {
    &&& forall|route: Seq<char>| #[trigger]
        directions.contains_key(route) <==> patterns_at(directions, route).len() > 0
    &&& forall|route: Seq<char>, i: int|
        0 <= i < patterns_at(directions, route).len() ==> is_direction(
            #[trigger] patterns_at(directions, route)[i],
            route,
            trips,
        )
    &&& forall|route: Seq<char>, i: int, j: int|
        0 <= i < j < patterns_at(directions, route).len() ==> pattern_less(
            #[trigger] patterns_at(directions, route)[i],
            #[trigger] patterns_at(directions, route)[j],
        )
    &&& forall|id: Seq<char>| #[trigger]
        trips.contains_key(id) && trips[id].stop_times@.len() > 0 ==> has_stops(
            patterns_at(directions, trips[id].route_id@),
            gtfs::trip_stops(trips[id]),
        )
}

/// Whether one of the patterns has the given stops.
pub open spec fn has_stops(patterns: Seq<Pattern>, stops: Seq<Seq<char>>) -> bool {
    exists|i: int| 0 <= i < patterns.len() && (#[trigger] patterns[i]).stops == stops
}

/// Whether a pattern lists, sorted, the trips of the route that run through its stops.
pub open spec fn is_direction(
    pattern: Pattern,
    route: Seq<char>,
    trips: Map<Seq<char>, Trip>,
) -> bool {
    &&& pattern.stops.len() > 0
    &&& pattern.destination == pattern.stops.last()
    &&& pattern.trips.len() > 0
    &&& order::strictly_sorted(pattern.trips)
    &&& forall|id: Seq<char>| #[trigger]
        pattern.trips.contains(id) <==> runs_through(trips, id, route, pattern.stops)
}

/// Whether a pattern lists the trips of `ids` that run through its stops, in order.
spec fn is_group(
    pattern: Pattern,
    route: Seq<char>,
    ids: Seq<Seq<char>>,
    trips: Map<Seq<char>, Trip>,
) -> bool {
    &&& pattern.stops.len() > 0
    &&& pattern.destination == pattern.stops.last()
    &&& pattern.trips.len() > 0
    &&& pattern.trips == ids.filter(
        |id: Seq<char>| runs_through(trips, id, route, pattern.stops),
    )
}

/// Whether a table groups the trips of `ids` by route and stops.
spec fn is_grouped(
    directions: Map<Seq<char>, Vec<DirectionPattern>>,
    ids: Seq<Seq<char>>,
    trips: Map<Seq<char>, Trip>,
) -> bool {
    &&& forall|route: Seq<char>| #[trigger]
        directions.contains_key(route) <==> patterns_at(directions, route).len() > 0
    &&& forall|route: Seq<char>, i: int|
        0 <= i < patterns_at(directions, route).len() ==> is_group(
            #[trigger] patterns_at(directions, route)[i],
            route,
            ids,
            trips,
        )
    &&& forall|route: Seq<char>, i: int, j: int|
        0 <= i < j < patterns_at(directions, route).len() ==> (#[trigger] patterns_at(
            directions,
            route,
        )[i]).stops != (#[trigger] patterns_at(directions, route)[j]).stops
    &&& forall|k: int|
        0 <= k < ids.len() && trips[#[trigger] ids[k]].stop_times@.len() > 0 ==> has_stops(
            patterns_at(directions, trips[ids[k]].route_id@),
            gtfs::trip_stops(trips[ids[k]]),
        )
}

/// Whether `new` is `old` with a trip more under its stops.
spec fn is_added(
    old_patterns: Seq<Pattern>,
    new_patterns: Seq<Pattern>,
    stops: Seq<Seq<char>>,
    trip: Seq<char>,
) -> bool {
    ||| exists|i: int|
        0 <= i < old_patterns.len() && (#[trigger] old_patterns[i]).stops == stops && new_patterns
            == old_patterns.update(
            i,
            Pattern { trips: old_patterns[i].trips.push(trip), ..old_patterns[i] },
        )
    ||| !has_stops(old_patterns, stops) && new_patterns == old_patterns.push(
        Pattern { stops, destination: stops.last(), trips: seq![trip] },
    )
}

fn same_list(a: &Vec<String>, b: &Vec<String>) -> (r: bool)
    ensures
        r == (text::texts(a@) == text::texts(b@)),
{
    if a.len() != b.len() {
        assert(text::texts(a@).len() != text::texts(b@).len());
        return false;
    }
    let mut i: usize = 0;
    while i < a.len()
        invariant
            i <= a@.len(),
            a@.len() == b@.len(),
            forall|k: int| 0 <= k < i ==> #[trigger] a@[k]@ == b@[k]@,
        decreases a@.len() - i,
    {
        if !text_eq(a[i].as_str(), b[i].as_str()) {
            assert(text::texts(a@)[i as int] != text::texts(b@)[i as int]);
            return false;
        }
        i = i + 1;
    }
    assert(text::texts(a@) =~= text::texts(b@));
    true
}

fn add_to_patterns(list: &mut Vec<DirectionPattern>, stop_ids: Vec<String>, trip_id: &str)
    requires
        stop_ids@.len() > 0,
    ensures
        is_added(
            patterns_of(old(list)@),
            patterns_of(final(list)@),
            text::texts(stop_ids@),
            trip_id@,
        ),
{
    let ghost before = patterns_of(list@);
    let ghost stops = text::texts(stop_ids@);
    let mut i: usize = 0;
    while i < list.len()
        invariant
            i <= list@.len(),
            before == patterns_of(list@),
            stops == text::texts(stop_ids@),
            patterns_of(old(list)@) == before,
            forall|k: int| 0 <= k < i ==> (#[trigger] before[k]).stops != stops,
        decreases list@.len() - i,
    {
        assert(before[i as int] == list@[i as int]@);
        if same_list(&list[i].stop_ids, &stop_ids) {
            let ghost old_pattern = list@[i as int]@;
            list[i].trip_ids.push(trip_id.to_owned());
            assert(text::texts(list@[i as int].trip_ids@) =~= old_pattern.trips.push(trip_id@));
            assert(patterns_of(list@) =~= before.update(
                i as int,
                Pattern { trips: before[i as int].trips.push(trip_id@), ..before[i as int] },
            ));
            return ;
        }
        i = i + 1;
    }
    let destination_stop_id = stop_ids[stop_ids.len() - 1].clone();
    let mut trip_ids: Vec<String> = Vec::new();
    trip_ids.push(trip_id.to_owned());
    assert(text::texts(trip_ids@) =~= seq![trip_id@]);
    list.push(DirectionPattern { stop_ids, destination_stop_id, trip_ids });
    assert(patterns_of(list@) =~= before.push(
        Pattern { stops, destination: stops.last(), trips: seq![trip_id@] },
    ));
}

fn add_trip(
    directions: &mut Table<Vec<DirectionPattern>>,
    route_id: &str,
    stop_ids: Vec<String>,
    trip_id: &str,
)
    requires
        stop_ids@.len() > 0,
    ensures
        final(directions)@.dom() == old(directions)@.dom().insert(route_id@),
        is_added(
            patterns_at(old(directions)@, route_id@),
            patterns_at(final(directions)@, route_id@),
            text::texts(stop_ids@),
            trip_id@,
        ),
        forall|route: Seq<char>|
            route != route_id@ ==> #[trigger] patterns_at(final(directions)@, route)
                == patterns_at(old(directions)@, route),
{
    let ghost before = directions@;
    match directions.slot_of(route_id) {
        Some(slot) => {
            let mut list: Vec<DirectionPattern> = Vec::new();
            directions.swap_value(slot, &mut list);
            add_to_patterns(&mut list, stop_ids, trip_id);
            directions.swap_value(slot, &mut list);
        },
        None => {
            let mut list: Vec<DirectionPattern> = Vec::new();
            assert(patterns_of(list@) =~= patterns_at(before, route_id@));
            add_to_patterns(&mut list, stop_ids, trip_id);
            directions.insert(route_id.to_owned(), list);
        },
    }
    assert(directions@.dom() =~= before.dom().insert(route_id@));
}

/// Grouping one trip more.
proof fn grouping_goes_on(
    before: Map<Seq<char>, Vec<DirectionPattern>>,
    after: Map<Seq<char>, Vec<DirectionPattern>>,
    ids: Seq<Seq<char>>,
    id: Seq<char>,
    trips: Map<Seq<char>, Trip>,
)
    requires
        is_grouped(before, ids, trips),
        trips.contains_key(id),
        trips[id].stop_times@.len() > 0,
        after.dom() == before.dom().insert(trips[id].route_id@),
        is_added(
            patterns_at(before, trips[id].route_id@),
            patterns_at(after, trips[id].route_id@),
            gtfs::trip_stops(trips[id]),
            id,
        ),
        forall|route: Seq<char>|
            route != trips[id].route_id@ ==> #[trigger] patterns_at(after, route) == patterns_at(
                before,
                route,
            ),
    ensures
        is_grouped(after, ids.push(id), trips),
{
    let here = trips[id].route_id@;
    let stops = gtfs::trip_stops(trips[id]);
    let was = patterns_at(before, here);
    let is = patterns_at(after, here);
    assert(ids.push(id).drop_last() =~= ids);
    assert forall|route: Seq<char>| #[trigger] after.contains_key(route) <==> patterns_at(
        after,
        route,
    ).len() > 0 by {
        assert(before.contains_key(route) <==> patterns_at(before, route).len() > 0);
        assert(after.contains_key(route) <==> after.dom().contains(route));
    }
    assert forall|route: Seq<char>, i: int|
        0 <= i < patterns_at(after, route).len() implies is_group(
        #[trigger] patterns_at(after, route)[i],
        route,
        ids.push(id),
        trips,
    ) by {
        reveal(Seq::filter);
        let pattern = patterns_at(after, route)[i];
        if route != here {
            assert(is_group(patterns_at(before, route)[i], route, ids, trips));
        } else if has_stops(was, stops) {
            assert(is_group(was[i], route, ids, trips));
            assert(pattern.stops == was[i].stops);
            let k = choose|k: int|
                0 <= k < was.len() && (#[trigger] was[k]).stops == stops && is == was.update(
                    k,
                    Pattern { trips: was[k].trips.push(id), ..was[k] },
                );
            if i != k {
                assert(was[i].stops != was[k].stops);
            }
        } else if i < was.len() {
            assert(is_group(was[i], route, ids, trips));
            assert(was[i].stops != stops);
        } else {
            assert(pattern.stops == stops);
            no_trip_through(before, ids, here, stops, trips);
            assert(pattern.trips =~= Seq::empty().push(id));
        }
    }
    assert forall|route: Seq<char>, i: int, j: int|
        0 <= i < j < patterns_at(after, route).len() implies (#[trigger] patterns_at(
        after,
        route,
    )[i]).stops != (#[trigger] patterns_at(after, route)[j]).stops by {
        if route != here {
            assert(patterns_at(before, route)[i].stops != patterns_at(before, route)[j].stops);
        } else if j < was.len() {
            assert(was[i].stops != was[j].stops);
            assert(is[i].stops == was[i].stops && is[j].stops == was[j].stops);
        } else {
            assert(was[i].stops != stops);
        }
    }
    assert forall|k: int|
        0 <= k < ids.push(id).len() && trips[#[trigger] ids.push(id)[k]].stop_times@.len()
            > 0 implies has_stops(
        patterns_at(after, trips[ids.push(id)[k]].route_id@),
        gtfs::trip_stops(trips[ids.push(id)[k]]),
    ) by {
        let one = ids.push(id)[k];
        if k < ids.len() {
            assert(one == ids[k]);
            let wanted = gtfs::trip_stops(trips[one]);
            let all = patterns_at(before, trips[one].route_id@);
            let p = choose|p: int| 0 <= p < all.len() && (#[trigger] all[p]).stops == wanted;
            assert(patterns_at(after, trips[one].route_id@)[p].stops == wanted);
        } else {
            if has_stops(was, stops) {
                let p = choose|p: int| 0 <= p < was.len() && (#[trigger] was[p]).stops == stops;
                assert(is[p].stops == stops);
            } else {
                assert(is[was.len() as int].stops == stops);
            }
        }
    }
}

/// No trip runs through stops that have no pattern.
proof fn no_trip_through(
    directions: Map<Seq<char>, Vec<DirectionPattern>>,
    ids: Seq<Seq<char>>,
    route: Seq<char>,
    stops: Seq<Seq<char>>,
    trips: Map<Seq<char>, Trip>,
)
    requires
        forall|k: int|
            0 <= k < ids.len() && trips[#[trigger] ids[k]].stop_times@.len() > 0 ==> has_stops(
                patterns_at(directions, trips[ids[k]].route_id@),
                gtfs::trip_stops(trips[ids[k]]),
            ),
        stops.len() > 0,
        !has_stops(patterns_at(directions, route), stops),
    ensures
        ids.filter(|id: Seq<char>| runs_through(trips, id, route, stops)) == Seq::<
            Seq<char>,
        >::empty(),
    decreases ids.len(),
{
    reveal(Seq::filter);
    if ids.len() > 0 {
        let front = ids.drop_last();
        assert forall|k: int|
            0 <= k < front.len() && trips[#[trigger] front[k]].stop_times@.len()
                > 0 implies has_stops(
            patterns_at(directions, trips[front[k]].route_id@),
            gtfs::trip_stops(trips[front[k]]),
        ) by {
            assert(front[k] == ids[k]);
        }
        no_trip_through(directions, front, route, stops, trips);
        let last = ids[ids.len() - 1];
        if runs_through(trips, last, route, stops) {
            assert(gtfs::trip_stops(trips[last]).len() == trips[last].stop_times@.len());
        }
    }
}

/// A trip without stops belongs to no pattern.
proof fn grouping_passes_over(
    directions: Map<Seq<char>, Vec<DirectionPattern>>,
    ids: Seq<Seq<char>>,
    id: Seq<char>,
    trips: Map<Seq<char>, Trip>,
)
    requires
        is_grouped(directions, ids, trips),
        trips.contains_key(id),
        trips[id].stop_times@.len() == 0,
    ensures
        is_grouped(directions, ids.push(id), trips),
{
    assert(ids.push(id).drop_last() =~= ids);
    assert(gtfs::trip_stops(trips[id]).len() == 0);
    assert forall|route: Seq<char>, i: int|
        0 <= i < patterns_at(directions, route).len() implies is_group(
        #[trigger] patterns_at(directions, route)[i],
        route,
        ids.push(id),
        trips,
    ) by {
        reveal(Seq::filter);
        assert(is_group(patterns_at(directions, route)[i], route, ids, trips));
    }
    assert forall|k: int|
        0 <= k < ids.push(id).len() && trips[#[trigger] ids.push(id)[k]].stop_times@.len()
            > 0 implies has_stops(
        patterns_at(directions, trips[ids.push(id)[k]].route_id@),
        gtfs::trip_stops(trips[ids.push(id)[k]]),
    ) by {
        assert(ids.push(id)[k] == ids[k]);
    }
}

/// The identifiers of the stops of a trip.
pub fn stop_ids_of(trip: &Trip) -> (r: Vec<String>)
    ensures
        text::texts(r@) == gtfs::trip_stops(*trip),
{
    let mut ids: Vec<String> = Vec::new();
    let mut i: usize = 0;
    while i < trip.stop_times.len()
        invariant
            i <= trip.stop_times@.len(),
            ids@.len() == i,
            forall|k: int| 0 <= k < i ==> #[trigger] ids@[k]@ == trip.stop_times@[k].stop_id@,
        decreases trip.stop_times@.len() - i,
    {
        ids.push(trip.stop_times[i].stop_id.clone());
        i = i + 1;
    }
    assert(text::texts(ids@) =~= gtfs::trip_stops(*trip));
    ids
}

fn group_trips(trips: &Table<Trip>) -> (r: Table<Vec<DirectionPattern>>)
    ensures
        is_grouped(r@, trips.keys(), trips@),
        trips.valid(),
        trips.keys().len() <= usize::MAX,
{
    let rows = trips.len();
    proof {
        table::table_keys(trips);
    }
    let ghost ids = trips.keys();
    let mut directions: Table<Vec<DirectionPattern>> = Table::new();
    let mut i: usize = 0;
    while i < rows
        invariant
            i <= rows,
            rows == ids.len(),
            ids == trips.keys(),
            is_grouped(directions@, ids.take(i as int), trips@),
        decreases rows - i,
    {
        let trip_id = trips.key_at(i);
        let trip = trips.value_at(i);
        let ghost before = directions@;
        assert(ids.take(i + 1) =~= ids.take(i as int).push(trip_id@));
        if trip.stop_times.len() > 0 {
            let stop_ids = stop_ids_of(trip);
            assert(stop_ids@.len() == text::texts(stop_ids@).len());
            add_trip(&mut directions, trip.route_id.as_str(), stop_ids, trip_id.as_str());
            proof {
                grouping_goes_on(before, directions@, ids.take(i as int), trip_id@, trips@);
            }
        } else {
            proof {
                grouping_passes_over(before, ids.take(i as int), trip_id@, trips@);
            }
        }
        i = i + 1;
    }
    assert(ids.take(i as int) =~= ids);
    directions
}

/// Whether `new` holds the patterns of `old` in order, the trips of each sorted.
spec fn is_put_in_order(old_patterns: Seq<Pattern>, new_patterns: Seq<Pattern>) -> bool {
    &&& new_patterns.len() == old_patterns.len()
    &&& forall|i: int|
        0 <= i < new_patterns.len() ==> is_one_sorted(#[trigger] new_patterns[i], old_patterns)
    &&& forall|j: int|
        0 <= j < old_patterns.len() ==> has_stops(
            new_patterns,
            (#[trigger] old_patterns[j]).stops,
        )
    &&& forall|i: int, j: int|
        0 <= i < j < new_patterns.len() ==> pattern_less(
            #[trigger] new_patterns[i],
            #[trigger] new_patterns[j],
        )
}

/// Whether a pattern is one of `old_patterns` with the trips sorted.
spec fn is_one_sorted(new: Pattern, old_patterns: Seq<Pattern>) -> bool {
    exists|j: int| 0 <= j < old_patterns.len() && is_sorted_form(new, #[trigger] old_patterns[j])
}

spec fn is_sorted_form(new: Pattern, old_pattern: Pattern) -> bool {
    &&& new.stops == old_pattern.stops
    &&& new.destination == old_pattern.destination
    &&& order::strictly_sorted(new.trips)
    &&& new.trips.to_set() == old_pattern.trips.to_set()
}

fn sort_trips(list: &mut Vec<DirectionPattern>)
    ensures
        final(list)@.len() == old(list)@.len(),
        forall|i: int|
            0 <= i < final(list)@.len() ==> is_sorted_form(
                (#[trigger] final(list)@[i])@,
                old(list)@[i]@,
            ),
{
    let mut i: usize = 0;
    while i < list.len()
        invariant
            i <= list@.len(),
            list@.len() == old(list)@.len(),
            forall|k: int|
                0 <= k < i ==> is_sorted_form((#[trigger] list@[k])@, old(list)@[k]@),
            forall|k: int| i <= k < list@.len() ==> #[trigger] list@[k] == old(list)@[k],
        decreases list@.len() - i,
    {
        let sorted = sorted_unique(copy_list(&list[i].trip_ids));
        list[i].trip_ids = sorted;
        i = i + 1;
    }
}

fn put_in_order(list: &mut Vec<DirectionPattern>)
    requires
        forall|i: int, j: int|
            0 <= i < j < old(list)@.len() ==> (#[trigger] old(list)@[i])@.stops != (
            #[trigger] old(list)@[j])@.stops,
        forall|i: int|
            0 <= i < old(list)@.len() ==> (#[trigger] old(list)@[i])@.stops.len() > 0
                && old(list)@[i]@.destination == old(list)@[i]@.stops.last(),
    ensures
        is_put_in_order(patterns_of(old(list)@), patterns_of(final(list)@)),
{
    let ghost given = list@;
    sort_trips(list);
    let ghost formed = list@;
    sort_by_rank(list);
    proof {
        order::ranked_is_a_stable_sort(formed);
        let out = list@;
        formed.to_multiset_ensures();
        out.to_multiset_ensures();
        assert forall|i: int, j: int|
            0 <= i < formed.len() && 0 <= j < formed.len() && i != j implies formed[i]
            != formed[j] by {
            if i < j {
                assert(given[i]@.stops != given[j]@.stops);
            } else {
                assert(given[j]@.stops != given[i]@.stops);
            }
            assert(is_sorted_form(formed[i]@, given[i]@));
            assert(is_sorted_form(formed[j]@, given[j]@));
        }
        formed.lemma_multiset_has_no_duplicates();
        out.lemma_multiset_has_no_duplicates_conv();
        let old_patterns = patterns_of(given);
        let new_patterns = patterns_of(out);
        assert forall|i: int| 0 <= i < new_patterns.len() implies is_one_sorted(
            #[trigger] new_patterns[i],
            old_patterns,
        ) by {
            let j = place_in(out, formed, i);
            assert(is_sorted_form(formed[j]@, given[j]@));
            assert(new_patterns[i] == formed[j]@ && old_patterns[j] == given[j]@);
        }
        assert forall|j: int| 0 <= j < old_patterns.len() implies has_stops(
            new_patterns,
            (#[trigger] old_patterns[j]).stops,
        ) by {
            let i = place_in(formed, out, j);
            assert(is_sorted_form(formed[j]@, given[j]@));
            assert(new_patterns[i].stops == old_patterns[j].stops);
        }
        assert forall|i: int, j: int| 0 <= i < j < new_patterns.len() implies pattern_less(
            #[trigger] new_patterns[i],
            #[trigger] new_patterns[j],
        ) by {
            assert(!out[j].before(out[i]));
            let a = place_in(out, formed, i);
            let b = place_in(out, formed, j);
            assert(a != b);
            assert(is_sorted_form(formed[a]@, given[a]@));
            assert(is_sorted_form(formed[b]@, given[b]@));
            if a < b {
                assert(given[a]@.stops != given[b]@.stops);
            } else {
                assert(given[b]@.stops != given[a]@.stops);
            }
            text::text_order_total(out[i]@.destination, out[j]@.destination);
            order::list_order_total(out[i]@.stops, out[j]@.stops);
        }
    }
}

/// Where a value of one list stands in another list of the same values.
proof fn place_in(a: Seq<DirectionPattern>, b: Seq<DirectionPattern>, i: int) -> (j: int)
    requires
        a.to_multiset() == b.to_multiset(),
        0 <= i < a.len(),
    ensures
        0 <= j < b.len(),
        b[j] == a[i],
{
    a.to_multiset_ensures();
    b.to_multiset_ensures();
    assert(a.contains(a[i]));
    assert(b.to_multiset().count(a[i]) > 0);
    choose|j: int| 0 <= j < b.len() && b[j] == a[i]
}

/// How many patterns the given routes have.
pub open spec fn pattern_total(
    directions: Map<Seq<char>, Vec<DirectionPattern>>,
    routes: Seq<Seq<char>>,
) -> int
    decreases routes.len(),
{
    if routes.len() == 0 {
        0
    } else {
        pattern_total(directions, routes.drop_last()) + patterns_at(
            directions,
            routes.last(),
        ).len()
    }
}

/// Fewer routes have no more patterns.
pub proof fn total_grows(
    directions: Map<Seq<char>, Vec<DirectionPattern>>,
    routes: Seq<Seq<char>>,
    n: int,
)
    requires
        0 <= n <= routes.len(),
    ensures
        pattern_total(directions, routes.take(n)) <= pattern_total(directions, routes),
    decreases routes.len(),
{
    if n == routes.len() {
        assert(routes.take(n) =~= routes);
    } else {
        total_grows(directions, routes.drop_last(), n);
        assert(routes.drop_last().take(n) =~= routes.take(n));
    }
}

/// The first trips of the patterns of the given routes.
spec fn first_trips(
    directions: Map<Seq<char>, Vec<DirectionPattern>>,
    routes: Seq<Seq<char>>,
) -> Seq<Seq<char>>
    decreases routes.len(),
{
    if routes.len() == 0 {
        seq![]
    } else {
        let patterns = patterns_at(directions, routes.last());
        first_trips(directions, routes.drop_last()) + Seq::new(
            patterns.len(),
            |i: int| patterns[i].trips[0],
        )
    }
}

/// The law of the directions: there are no more patterns than trips.
pub proof fn patterns_are_few(
    directions: Map<Seq<char>, Vec<DirectionPattern>>,
    routes: Seq<Seq<char>>,
    trips: Map<Seq<char>, Trip>,
)
    requires
        is_direction_index(directions, trips),
        routes.no_duplicates(),
        trips.dom().finite(),
    ensures
        pattern_total(directions, routes) <= trips.dom().len(),
{
    first_trips_differ(directions, routes, trips);
    let firsts = first_trips(directions, routes);
    firsts.unique_seq_to_set();
    assert(firsts.to_set().subset_of(trips.dom()));
    vstd::set_lib::lemma_len_subset(firsts.to_set(), trips.dom());
}

proof fn first_trips_differ(
    directions: Map<Seq<char>, Vec<DirectionPattern>>,
    routes: Seq<Seq<char>>,
    trips: Map<Seq<char>, Trip>,
)
    requires
        is_direction_index(directions, trips),
        routes.no_duplicates(),
    ensures
        first_trips(directions, routes).len() == pattern_total(directions, routes),
        first_trips(directions, routes).no_duplicates(),
        forall|i: int|
            0 <= i < first_trips(directions, routes).len() ==> trips.contains_key(
                #[trigger] first_trips(directions, routes)[i],
            ) && routes.contains(trips[first_trips(directions, routes)[i]].route_id@),
    decreases routes.len(),
{
    if routes.len() > 0 {
        let front = routes.drop_last();
        let route = routes.last();
        let before = first_trips(directions, front);
        let patterns = patterns_at(directions, route);
        let all = first_trips(directions, routes);
        first_trips_differ(directions, front, trips);
        assert forall|i: int| 0 <= i < all.len() implies trips.contains_key(#[trigger] all[i])
            && routes.contains(trips[all[i]].route_id@) && (i >= before.len()
            ==> runs_through(trips, all[i], route, patterns[i - before.len()].stops)) && (i
            < before.len() ==> trips[all[i]].route_id@ != route) by {
            if i < before.len() {
                assert(all[i] == before[i]);
                let r = trips[all[i]].route_id@;
                let k = choose|k: int| 0 <= k < front.len() && front[k] == r;
                assert(routes[k] == r);
                assert(routes[routes.len() - 1] == route);
            } else {
                let pattern = patterns[i - before.len()];
                assert(is_direction(pattern, route, trips));
                assert(pattern.trips.contains(pattern.trips[0]));
                assert(routes[routes.len() - 1] == route);
            }
        }
        assert forall|i: int, j: int|
            0 <= i < all.len() && 0 <= j < all.len() && i != j implies all[i] != all[j] by {
            if i < before.len() && j < before.len() {
                assert(all[i] == before[i] && all[j] == before[j]);
            } else if i >= before.len() && j >= before.len() {
                let a = i - before.len();
                let b = j - before.len();
                if a < b {
                    patterns_differ(directions, trips, route, a, b);
                } else {
                    patterns_differ(directions, trips, route, b, a);
                }
            }
        }
    }
}

/// No two patterns of a route have the same stops.
pub proof fn patterns_differ(
    directions: Map<Seq<char>, Vec<DirectionPattern>>,
    trips: Map<Seq<char>, Trip>,
    route: Seq<char>,
    i: int,
    j: int,
)
    requires
        is_direction_index(directions, trips),
        0 <= i < j < patterns_at(directions, route).len(),
    ensures
        patterns_at(directions, route)[i].stops != patterns_at(directions, route)[j].stops,
{
    let a = patterns_at(directions, route)[i];
    let b = patterns_at(directions, route)[j];
    assert(pattern_less(a, b));
    assert(is_direction(a, route, trips));
    assert(is_direction(b, route, trips));
    if a.stops == b.stops {
        text::text_order_irreflexive(a.destination);
        order::list_order_irreflexive(a.stops);
    }
}

/// The directions of all routes of the trips.
pub fn build_directions(trips: &Table<Trip>) -> (r: Table<Vec<DirectionPattern>>)
    ensures
        is_direction_index(r@, trips@),
        pattern_total(r@, r.keys()) <= usize::MAX,
{
    let mut directions = group_trips(trips);
    let ghost grouped = directions;
    let rows = directions.len();
    proof {
        table::table_keys(trips);
        table::table_keys(&directions);
    }
    let mut i: usize = 0;
    while i < rows
        invariant
            i <= rows,
            rows == grouped.keys().len(),
            grouped.keys().no_duplicates(),
            is_grouped(grouped@, trips.keys(), trips@),
            directions.keys() == grouped.keys(),
            directions@.dom() == grouped@.dom(),
            forall|k: int| #![trigger grouped.keys()[k]]
                0 <= k < rows ==> grouped@.contains_key(grouped.keys()[k]),
            forall|k: int| #![trigger grouped.keys()[k]]
                0 <= k < i ==> is_put_in_order(
                    patterns_at(grouped@, grouped.keys()[k]),
                    patterns_at(directions@, grouped.keys()[k]),
                ),
            forall|k: int| #![trigger grouped.keys()[k]]
                i <= k < rows ==> directions@[grouped.keys()[k]] == grouped@[grouped.keys()[k]],
        decreases rows - i,
    {
        let ghost here = grouped.keys()[i as int];
        let ghost before = directions@;
        let mut list: Vec<DirectionPattern> = Vec::new();
        directions.swap_value(i, &mut list);
        proof {
            let patterns = patterns_at(grouped@, here);
            assert(patterns == patterns_of(list@));
            assert forall|a: int, b: int| 0 <= a < b < list@.len() implies (
            #[trigger] list@[a])@.stops != (#[trigger] list@[b])@.stops by {
                assert(patterns[a].stops != patterns[b].stops);
            }
            assert forall|a: int| 0 <= a < list@.len() implies (#[trigger] list@[a])@.stops.len()
                > 0 && list@[a]@.destination == list@[a]@.stops.last() by {
                assert(is_group(patterns[a], here, trips.keys(), trips@));
            }
        }
        put_in_order(&mut list);
        directions.swap_value(i, &mut list);
        assert(directions@.dom() =~= grouped@.dom());
        assert forall|k: int| #![trigger grouped.keys()[k]]
            0 <= k < i + 1 implies is_put_in_order(
            patterns_at(grouped@, grouped.keys()[k]),
            patterns_at(directions@, grouped.keys()[k]),
        ) by {
            assert(grouped@.contains_key(grouped.keys()[k]));
            if k < i {
                assert(patterns_at(directions@, grouped.keys()[k]) == patterns_at(
                    before,
                    grouped.keys()[k],
                ));
            }
        }
        i = i + 1;
    }
    proof {
        assert forall|route: Seq<char>| #[trigger] grouped@.contains_key(
            route,
        ) implies is_put_in_order(
            patterns_at(grouped@, route),
            patterns_at(directions@, route),
        ) by {
            let at = choose|at: int| 0 <= at < rows && grouped.keys()[at] == route;
            assert(grouped.keys()[at] == route);
        }
        ordering_keeps(grouped@, directions@, trips.keys(), trips@);
        patterns_are_few(directions@, directions.keys(), trips@);
        trips.keys().unique_seq_to_set();
    }
    directions
}

/// A grouping put in order is an index of the directions.
proof fn ordering_keeps(
    grouped: Map<Seq<char>, Vec<DirectionPattern>>,
    directions: Map<Seq<char>, Vec<DirectionPattern>>,
    ids: Seq<Seq<char>>,
    trips: Map<Seq<char>, Trip>,
)
    requires
        is_grouped(grouped, ids, trips),
        forall|id: Seq<char>| #[trigger] trips.contains_key(id) <==> ids.contains(id),
        directions.dom() == grouped.dom(),
        forall|route: Seq<char>| #[trigger]
            grouped.contains_key(route) ==> is_put_in_order(
                patterns_at(grouped, route),
                patterns_at(directions, route),
            ),
    ensures
        is_direction_index(directions, trips),
{
    assert forall|route: Seq<char>| #[trigger] directions.contains_key(route) <==> patterns_at(
        directions,
        route,
    ).len() > 0 by {
        assert(directions.dom().contains(route) <==> grouped.dom().contains(route));
        assert(grouped.contains_key(route) <==> patterns_at(grouped, route).len() > 0);
    }
    assert forall|route: Seq<char>, i: int|
        0 <= i < patterns_at(directions, route).len() implies is_direction(
        #[trigger] patterns_at(directions, route)[i],
        route,
        trips,
    ) by {
        assert(directions.dom().contains(route));
        assert(grouped.contains_key(route));
        let was = patterns_at(grouped, route);
        let pattern = patterns_at(directions, route)[i];
        assert(is_one_sorted(pattern, was));
        let j = choose|j: int|
            0 <= j < was.len() && is_sorted_form(pattern, #[trigger] was[j]);
        assert(is_group(was[j], route, ids, trips));
        assert(was[j].trips.contains(was[j].trips[0]));
        assert(pattern.trips.to_set().contains(was[j].trips[0]));
        assert forall|id: Seq<char>| #[trigger] pattern.trips.contains(id) <==> runs_through(
            trips,
            id,
            route,
            pattern.stops,
        ) by {
            assert(pattern.trips.contains(id) <==> pattern.trips.to_set().contains(id));
            assert(was[j].trips.contains(id) <==> was[j].trips.to_set().contains(id));
            filtered(ids, route, pattern.stops, trips, id);
        }
    }
    assert forall|route: Seq<char>, i: int, j: int|
        0 <= i < j < patterns_at(directions, route).len() implies pattern_less(
        #[trigger] patterns_at(directions, route)[i],
        #[trigger] patterns_at(directions, route)[j],
    ) by {
        assert(directions.dom().contains(route));
        assert(grouped.contains_key(route));
    }
    assert forall|id: Seq<char>| #[trigger]
        trips.contains_key(id) && trips[id].stop_times@.len() > 0 implies has_stops(
        patterns_at(directions, trips[id].route_id@),
        gtfs::trip_stops(trips[id]),
    ) by {
        assert(ids.contains(id));
        let k = choose|k: int| 0 <= k < ids.len() && ids[k] == id;
        assert(trips[ids[k]].stop_times@.len() > 0);
        let route = trips[id].route_id@;
        let was = patterns_at(grouped, route);
        let p = choose|p: int|
            0 <= p < was.len() && (#[trigger] was[p]).stops == gtfs::trip_stops(trips[id]);
        assert(grouped.contains_key(route));
        assert(has_stops(patterns_at(directions, route), was[p].stops));
    }
}

proof fn filtered(
    ids: Seq<Seq<char>>,
    route: Seq<char>,
    stops: Seq<Seq<char>>,
    trips: Map<Seq<char>, Trip>,
    id: Seq<char>,
)
    requires
        trips.contains_key(id) <==> ids.contains(id),
    ensures
        ids.filter(|id: Seq<char>| runs_through(trips, id, route, stops)).contains(id)
            <==> runs_through(trips, id, route, stops),
{
    let pred = |id: Seq<char>| runs_through(trips, id, route, stops);
    broadcast use vstd::seq_lib::group_filter_ensures;

    if runs_through(trips, id, route, stops) {
        let i = choose|i: int| 0 <= i < ids.len() && ids[i] == id;
        assert(pred(ids[i]));
        assert(ids.filter(pred).contains(ids[i]));
    }
    if ids.filter(pred).contains(id) {
        let i = choose|i: int| 0 <= i < ids.filter(pred).len() && ids.filter(pred)[i] == id;
        assert(pred(ids.filter(pred)[i]));
    }
}

} // verus!
