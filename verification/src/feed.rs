//! The feed that is published: how trips run, stop by stop.

use crate::text;
use vstd::hash_map::StringHashMap;
use vstd::prelude::*;

verus! {

/// How a trip runs at a stop.
#[derive(Debug, Clone)]
pub struct StopTimeUpdate {
    pub stop_id: String,
    pub arrival: Option<i64>,
    pub departure: Option<i64>,
    /// Whether the trip leaves the stop out.
    pub skipped: bool,
}

/// Which trip an update is about.
#[derive(Debug, Clone)]
pub struct TripDescriptor {
    pub trip_id: String,
    pub start_date: Option<String>,
    pub route_id: Option<String>,
    /// Whether the trip is not in the schedule.
    pub added: bool,
}

/// How a trip runs.
#[derive(Debug, Clone)]
pub struct TripUpdate {
    pub trip: TripDescriptor,
    pub stop_time_update: Vec<StopTimeUpdate>,
}

/// One entry of the feed.
#[derive(Debug, Clone)]
pub struct FeedEntity {
    pub id: String,
    pub trip_update: TripUpdate,
}

/// The feed.
#[derive(Debug, Clone)]
pub struct FeedMessage {
    pub gtfs_realtime_version: String,
    pub timestamp: Option<u64>,
    pub entity: Vec<FeedEntity>,
}

/// How a trip runs at a stop.
#[verifier::ext_equal]
pub ghost struct Visit {
    pub stop: Seq<char>,
    pub arrival: Option<i64>,
    pub departure: Option<i64>,
    pub skipped: bool,
}

impl View for StopTimeUpdate {
    type V = Visit;

    open spec fn view(&self) -> Visit {
        Visit {
            stop: self.stop_id@,
            arrival: self.arrival,
            departure: self.departure,
            skipped: self.skipped,
        }
    }
}

/// How a trip runs at the stops of a list.
pub open spec fn visits_of(list: Seq<StopTimeUpdate>) -> Seq<Visit> {
    Seq::new(list.len(), |i: int| list[i]@)
}

/// One entry of the feed.
#[verifier::ext_equal]
pub ghost struct Entry {
    pub id: Seq<char>,
    pub trip: Seq<char>,
    pub start: Option<Seq<char>>,
    pub route: Option<Seq<char>>,
    pub added: bool,
    pub visits: Seq<Visit>,
}

impl View for FeedEntity {
    type V = Entry;

    open spec fn view(&self) -> Entry {
        Entry {
            id: self.id@,
            trip: self.trip_update.trip.trip_id@,
            start: text::opt_string(self.trip_update.trip.start_date),
            route: text::opt_string(self.trip_update.trip.route_id),
            added: self.trip_update.trip.added,
            visits: visits_of(self.trip_update.stop_time_update@),
        }
    }
}

/// The entries of a list.
pub open spec fn entries_of(list: Seq<FeedEntity>) -> Seq<Entry> {
    Seq::new(list.len(), |i: int| list[i]@)
}

/// The entry of a trip of the schedule.
pub open spec fn scheduled_entry(
    trip: Seq<char>,
    start: Option<Seq<char>>,
    visits: Seq<Visit>,
) -> Entry {
    Entry { id: trip, trip, start, route: None, added: false, visits }
}

/// The entry of a trip of the schedule.
pub fn scheduled_entity(
    trip_id: &str,
    start_date: Option<String>,
    stop_time_update: Vec<StopTimeUpdate>,
) -> (r: FeedEntity)
    ensures
        r@ == scheduled_entry(
            trip_id@,
            text::opt_string(start_date),
            visits_of(stop_time_update@),
        ),
{
    FeedEntity {
        id: trip_id.to_owned(),
        trip_update: TripUpdate {
            trip: TripDescriptor {
                trip_id: trip_id.to_owned(),
                start_date,
                route_id: None,
                added: false,
            },
            stop_time_update,
        },
    }
}

impl FeedMessage {
    /// A feed made at the given time.
    pub fn new(timestamp: u64, entity: Vec<FeedEntity>) -> (r: Self)
        ensures
            r.gtfs_realtime_version@ == "2.0"@,
            r.timestamp == Some(timestamp),
            r.entity@ == entity@,
    {
        FeedMessage {
            gtfs_realtime_version: "2.0".to_owned(),
            timestamp: Some(timestamp),
            entity,
        }
    }

    /// A feed without anything, made at no time.
    pub fn blank() -> (r: Self)
        ensures
            r.gtfs_realtime_version@ == ""@,
            r.timestamp is None,
            r.entity@.len() == 0,
    {
        FeedMessage {
            gtfs_realtime_version: "".to_owned(),
            timestamp: None,
            entity: Vec::new(),
        }
    }
}

/// Whether no entry is about the trip of an entry or has its identifier.
pub open spec fn is_new(entries: Seq<Entry>, entry: Entry) -> bool {
    forall|i: int|
        0 <= i < entries.len() ==> (#[trigger] entries[i]).trip != entry.trip && entries[i].id
            != entry.id
}

/// Entries with those of `more` that are new, in order.
pub open spec fn merged(entries: Seq<Entry>, more: Seq<Entry>) -> Seq<Entry>
    decreases more.len(),
{
    if more.len() == 0 {
        entries
    } else {
        let front = merged(entries, more.drop_last());
        if is_new(front, more.last()) {
            front.push(more.last())
        } else {
            front
        }
    }
}

/// The law of `merged`: what was there stays in front, and what follows comes from the others and
/// is about trips of its own.
pub proof fn merging_keeps_and_differs(entries: Seq<Entry>, more: Seq<Entry>)
    ensures
        merged(entries, more).len() >= entries.len(),
        merged(entries, more).take(entries.len() as int) == entries,
        forall|i: int, j: int|
            0 <= i < j < merged(entries, more).len() && entries.len() <= j ==> (
            #[trigger] merged(entries, more)[i]).trip != (#[trigger] merged(entries, more)[j]).trip
                && merged(entries, more)[i].id != merged(entries, more)[j].id,
        forall|k: int|
            0 <= k < more.len() ==> !is_new(merged(entries, more), #[trigger] more[k]),
        forall|i: int|
            entries.len() <= i < merged(entries, more).len() ==> more.contains(
                #[trigger] merged(entries, more)[i],
            ),
    decreases more.len(),
{
    if more.len() == 0 {
        assert(entries.take(entries.len() as int) =~= entries);
    } else {
        let rest = more.drop_last();
        let front = merged(entries, rest);
        let all = merged(entries, more);
        merging_keeps_and_differs(entries, rest);
        assert(all.take(entries.len() as int) =~= front.take(entries.len() as int));
        assert forall|i: int| entries.len() <= i < all.len() implies more.contains(
            #[trigger] all[i],
        ) by {
            if i < front.len() {
                assert(rest.contains(front[i]));
                let k = choose|k: int| 0 <= k < rest.len() && rest[k] == front[i];
                assert(more[k] == all[i]);
            } else {
                assert(more[more.len() - 1] == all[i]);
            }
        }
        assert forall|k: int| 0 <= k < more.len() implies !is_new(all, #[trigger] more[k]) by {
            if k < rest.len() {
                assert(more[k] == rest[k]);
                let i = choose|i: int|
                    0 <= i < front.len() && !((#[trigger] front[i]).trip != more[k].trip
                        && front[i].id != more[k].id);
                assert(all[i] == front[i]);
            } else if is_new(front, more.last()) {
                assert(all[front.len() as int] == more.last());
            }
        }
    }
}

/// A feed in the making: its entries, and the trips and identifiers that they have.
pub struct FeedBuilder {
    entities: Vec<FeedEntity>,
    trips: StringHashMap<bool>,
    ids: StringHashMap<bool>,
}

impl FeedBuilder {
    /// Whether the trips and identifiers are those of the entries.
    pub closed spec fn valid(self) -> bool {
        &&& forall|trip: Seq<char>| #[trigger]
            self.trips@.contains_key(trip) <==> exists|i: int|
                0 <= i < self.entities@.len() && (#[trigger] self.entities@[i])@.trip == trip
        &&& forall|id: Seq<char>| #[trigger]
            self.ids@.contains_key(id) <==> exists|i: int|
                0 <= i < self.entities@.len() && (#[trigger] self.entities@[i])@.id == id
    }

    /// The entries.
    pub closed spec fn entries(self) -> Seq<Entry> {
        entries_of(self.entities@)
    }

    /// A feed without entries.
    pub fn new() -> (r: Self)
        ensures
            r.valid(),
            r.entries() == Seq::<Entry>::empty(),
    {
        let r = FeedBuilder {
            entities: Vec::new(),
            trips: StringHashMap::new(),
            ids: StringHashMap::new(),
        };
        assert(r.entries() =~= Seq::<Entry>::empty());
        r
    }

    /// Whether no entry is about the trip of an entry or has its identifier.
    pub fn lacks(&self, entity: &FeedEntity) -> (r: bool)
        requires
            self.valid(),
        ensures
            r == is_new(self.entries(), entity@),
    {
        let known_trip = self.trips.contains_key(entity.trip_update.trip.trip_id.as_str());
        let known_id = self.ids.contains_key(entity.id.as_str());
        proof {
            let all = self.entries();
            if known_trip {
                let i = choose|i: int|
                    0 <= i < self.entities@.len() && (#[trigger] self.entities@[i])@.trip
                        == entity@.trip;
                assert(all[i].trip == entity@.trip);
            }
            if known_id {
                let i = choose|i: int|
                    0 <= i < self.entities@.len() && (#[trigger] self.entities@[i])@.id
                        == entity@.id;
                assert(all[i].id == entity@.id);
            }
            if !known_trip && !known_id {
                assert forall|i: int| 0 <= i < all.len() implies (#[trigger] all[i]).trip
                    != entity@.trip && all[i].id != entity@.id by {
                    assert(all[i] == self.entities@[i]@);
                }
            }
        }
        !known_trip && !known_id
    }

    /// Appends an entry.
    pub fn push(&mut self, entity: FeedEntity)
        requires
            old(self).valid(),
        ensures
            final(self).valid(),
            final(self).entries() == old(self).entries().push(entity@),
    {
        let ghost before = *self;
        self.trips.insert(entity.trip_update.trip.trip_id.clone(), true);
        self.ids.insert(entity.id.clone(), true);
        self.entities.push(entity);
        proof {
            let n = before.entities@.len() as int;
            assert(self.entries() =~= before.entries().push(entity@));
            assert forall|i: int| 0 <= i < n implies #[trigger] self.entities@[i]
                == before.entities@[i] by {}
            assert(self.entities@[n]@ == entity@);
            assert forall|trip: Seq<char>| #[trigger] self.trips@.contains_key(
                trip,
            ) <==> exists|i: int|
                0 <= i < self.entities@.len() && (#[trigger] self.entities@[i])@.trip == trip by {
                if self.trips@.contains_key(trip) && trip != entity@.trip {
                    assert(before.trips@.contains_key(trip));
                    let i = choose|i: int|
                        0 <= i < n && (#[trigger] before.entities@[i])@.trip == trip;
                    assert(self.entities@[i]@.trip == trip);
                }
                if exists|i: int|
                    0 <= i < self.entities@.len() && (#[trigger] self.entities@[i])@.trip == trip {
                    let i = choose|i: int|
                        0 <= i < self.entities@.len() && (#[trigger] self.entities@[i])@.trip
                            == trip;
                    if i < n {
                        assert(before.entities@[i]@.trip == trip);
                        assert(before.trips@.contains_key(trip));
                    }
                }
            }
            assert forall|id: Seq<char>| #[trigger] self.ids@.contains_key(id) <==> exists|i: int|
                0 <= i < self.entities@.len() && (#[trigger] self.entities@[i])@.id == id by {
                if self.ids@.contains_key(id) && id != entity@.id {
                    assert(before.ids@.contains_key(id));
                    let i = choose|i: int|
                        0 <= i < n && (#[trigger] before.entities@[i])@.id == id;
                    assert(self.entities@[i]@.id == id);
                }
                if exists|i: int|
                    0 <= i < self.entities@.len() && (#[trigger] self.entities@[i])@.id == id {
                    let i = choose|i: int|
                        0 <= i < self.entities@.len() && (#[trigger] self.entities@[i])@.id == id;
                    if i < n {
                        assert(before.entities@[i]@.id == id);
                        assert(before.ids@.contains_key(id));
                    }
                }
            }
        }
    }

    /// Appends entries, whatever they are about.
    pub fn append(&mut self, entities: Vec<FeedEntity>)
        requires
            old(self).valid(),
        ensures
            final(self).valid(),
            final(self).entries() == old(self).entries() + entries_of(entities@),
    {
        let ghost before = self.entries();
        let ghost all = entries_of(entities@);
        let mut waiting = backwards(entities);
        let ghost mut done: int = 0;
        assert(all.skip(0) =~= all);
        assert(before + all.take(0) =~= before);
        while waiting.len() > 0
            invariant
                self.valid(),
                0 <= done <= all.len(),
                entries_of(waiting@) == all.skip(done).reverse(),
                self.entries() == before + all.take(done),
            decreases waiting@.len(),
        {
            let ghost given = waiting@;
            if let Some(entity) = waiting.pop() {
                proof {
                    assert(entries_of(given).last() == entity@);
                    assert(entity@ == all.skip(done)[0]);
                    assert(entries_of(waiting@) =~= entries_of(given).drop_last());
                    assert(all.skip(done).reverse().drop_last() =~= all.skip(done + 1).reverse());
                    assert(all.take(done + 1) =~= all.take(done).push(entity@));
                    assert((before + all.take(done)).push(entity@) =~= before + all.take(done + 1));
                }
                self.push(entity);
                proof {
                    done = done + 1;
                }
            }
        }
        assert(entries_of(waiting@).len() == 0);
        assert(all.take(done) =~= all);
    }

    /// Appends the entries that are new.
    pub fn merge(&mut self, entities: Vec<FeedEntity>)
        requires
            old(self).valid(),
        ensures
            final(self).valid(),
            final(self).entries() == merged(old(self).entries(), entries_of(entities@)),
    {
        let ghost before = self.entries();
        let ghost all = entries_of(entities@);
        let mut waiting = backwards(entities);
        let ghost mut done: int = 0;
        assert(all.skip(0) =~= all);
        assert(all.take(0) =~= seq![]);
        while waiting.len() > 0
            invariant
                self.valid(),
                0 <= done <= all.len(),
                entries_of(waiting@) == all.skip(done).reverse(),
                self.entries() == merged(before, all.take(done)),
            decreases waiting@.len(),
        {
            let ghost given = waiting@;
            if let Some(entity) = waiting.pop() {
                proof {
                    assert(entries_of(given).last() == entity@);
                    assert(entity@ == all.skip(done)[0]);
                    assert(entries_of(waiting@) =~= entries_of(given).drop_last());
                    assert(all.skip(done).reverse().drop_last() =~= all.skip(done + 1).reverse());
                    assert(all.take(done + 1).drop_last() =~= all.take(done));
                    assert(all.take(done + 1).last() == entity@);
                }
                if self.lacks(&entity) {
                    self.push(entity);
                }
                proof {
                    done = done + 1;
                }
            }
        }
        assert(entries_of(waiting@).len() == 0);
        assert(all.take(done) =~= all);
    }

    /// The entries.
    pub fn finish(self) -> (r: Vec<FeedEntity>)
        ensures
            entries_of(r@) == self.entries(),
    {
        self.entities
    }
}

fn backwards(list: Vec<FeedEntity>) -> (r: Vec<FeedEntity>)
    ensures
        entries_of(r@) == entries_of(list@).reverse(),
{
    let mut left = list;
    let mut out: Vec<FeedEntity> = Vec::new();
    assert(out@ + left@.reverse() =~= list@.reverse());
    while left.len() > 0
        invariant
            out@ + left@.reverse() == list@.reverse(),
        decreases left@.len(),
    {
        let ghost given = left@;
        if let Some(entity) = left.pop() {
            out.push(entity);
            assert(given.reverse() =~= seq![entity] + left@.reverse());
            assert(out@ + left@.reverse() =~= list@.reverse());
        }
    }
    assert(out@ =~= list@.reverse());
    assert(entries_of(out@) =~= entries_of(list@).reverse());
    out
}

} // verus!
