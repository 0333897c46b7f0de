//! How many journeys of a delivery carry the short name of a trip.

use crate::gtfs::Trip;
use crate::table::{self, Table};
use crate::text::{self, text_eq};
use vstd::prelude::*;

verus! {

/// The trips of `ids` that have a short name, in order.
pub open spec fn named(ids: Seq<Seq<char>>, trips: Map<Seq<char>, Trip>) -> Seq<Seq<char>> {
    ids.filter(|id: Seq<char>| trips[id].trip_short_name is Some)
}

/// How many trips have a short name, and the rows of the first of them, up to a limit.
pub fn survey_short_names(trips: &Table<Trip>, limit: usize) -> (r: (usize, Vec<usize>))
    ensures
        r.0 == named(trips.keys(), trips@).len(),
        r.1@.len() == (if r.0 < limit {
            r.0
        } else {
            limit
        }),
        forall|i: int|
            0 <= i < r.1@.len() ==> #[trigger] r.1@[i] < trips.keys().len()
                && trips.keys()[r.1@[i] as int] == named(trips.keys(), trips@)[i],
{
    let rows = trips.len();
    let ghost ids = trips.keys();
    let mut count: usize = 0;
    let mut samples: Vec<usize> = Vec::new();
    let mut i: usize = 0;
    proof {
        reveal(Seq::filter);
    }
    while i < rows
        invariant
            i <= rows,
            rows == ids.len(),
            ids == trips.keys(),
            count <= i,
            count == named(ids.take(i as int), trips@).len(),
            samples@.len() == (if count < limit {
                count
            } else {
                limit
            }),
            forall|k: int|
                0 <= k < samples@.len() ==> #[trigger] samples@[k] < ids.len()
                    && ids[samples@[k] as int] == named(ids.take(i as int), trips@)[k],
        decreases rows - i,
    {
        let ghost before = named(ids.take(i as int), trips@);
        proof {
            reveal(Seq::filter);
            assert(ids.take(i + 1).drop_last() =~= ids.take(i as int));
            assert(ids.take(i + 1).last() == ids[i as int]);
        }
        if trips.value_at(i).trip_short_name.is_some() {
            assert(named(ids.take(i + 1), trips@) == before.push(ids[i as int]));
            count = count + 1;
            if count <= limit {
                samples.push(i);
            }
        } else {
            assert(named(ids.take(i + 1), trips@) == before);
        }
        i = i + 1;
    }
    assert(ids.take(i as int) =~= ids);
    (count, samples)
}

/// Whether a trip has the given short name.
pub open spec fn is_short_name(trips: Map<Seq<char>, Trip>, name: Seq<char>) -> bool {
    exists|id: Seq<char>| #[trigger]
        trips.contains_key(id) && text::opt_string(trips[id].trip_short_name) == Some(name)
}

/// Whether a trip has the given short name.
pub fn has_short_name(trips: &Table<Trip>, name: &str) -> (r: bool)
    ensures
        r == is_short_name(trips@, name@),
{
    let rows = trips.len();
    proof {
        table::table_keys(trips);
    }
    let mut i: usize = 0;
    while i < rows
        invariant
            i <= rows,
            rows == trips.keys().len(),
            forall|k: int|
                0 <= k < i ==> text::opt_string(
                    trips@[#[trigger] trips.keys()[k]].trip_short_name,
                ) != Some(name@),
        decreases rows - i,
    {
        if let Some(short) = &trips.value_at(i).trip_short_name {
            if text_eq(short.as_str(), name) {
                assert(trips@.contains_key(trips.keys()[i as int]));
                return true;
            }
        }
        i = i + 1;
    }
    proof {
        if is_short_name(trips@, name@) {
            let id = choose|id: Seq<char>| #[trigger]
                trips@.contains_key(id) && text::opt_string(trips@[id].trip_short_name)
                    == Some(name@);
            let k = choose|k: int| 0 <= k < rows && trips.keys()[k] == id;
            assert(trips.keys()[k] == id);
        }
    }
    false
}

/// How many of the names are short names of trips.
pub open spec fn known_names(names: Seq<String>, trips: Map<Seq<char>, Trip>) -> int
    decreases names.len(),
{
    if names.len() == 0 {
        0
    } else {
        known_names(names.drop_last(), trips) + (if is_short_name(trips, names.last()@) {
            1int
        } else {
            0
        })
    }
}

/// How many of the names are short names of trips.
pub fn count_known_names(names: &Vec<String>, trips: &Table<Trip>) -> (r: usize)
    ensures
        r == known_names(names@, trips@),
        r <= names@.len(),
{
    let mut count: usize = 0;
    let mut i: usize = 0;
    while i < names.len()
        invariant
            i <= names@.len(),
            count <= i,
            count == known_names(names@.take(i as int), trips@),
        decreases names@.len() - i,
    {
        assert(names@.take(i + 1).drop_last() =~= names@.take(i as int));
        if has_short_name(trips, names[i].as_str()) {
            count = count + 1;
        }
        i = i + 1;
    }
    assert(names@.take(i as int) =~= names@);
    count
}

} // verus!
