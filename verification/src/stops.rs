//! Stops: the station a stop belongs to, and the stops a SIRI reference may mean.

use crate::gtfs::Stop;
use crate::lists::{self, copy_list, push_under, sort_lists};
use crate::order;
use crate::table::{self, Table};
use crate::text::{self, id_suffix, siri_reference_suffix, text_eq};
use vstd::hash_map::StringHashMap;
use vstd::prelude::*;

verus! {

/// The parent that a schedule gives a stop.
pub open spec fn parent_of(stops: Map<Seq<char>, Stop>, id: Seq<char>) -> Option<Seq<char>> {
    if stops.contains_key(id) {
        text::opt_string(stops[id].parent_station)
    } else {
        None
    }
}

/// Where the way up from `current` ends: at the first stop that has no parent, is its own parent,
/// or has been passed before.
pub open spec fn climb(
    stops: Map<Seq<char>, Stop>,
    current: Seq<char>,
    passed: Set<Seq<char>>,
) -> Seq<char>
    decreases stops.dom().difference(passed).len(),
    when stops.dom().finite()
{
    if passed.contains(current) {
        current
    } else {
        match parent_of(stops, current) {
            Some(parent) => if parent == current {
                current
            } else {
                proof {
                    passing_shrinks(stops.dom(), passed, current);
                }
                climb(stops, parent, passed.insert(current))
            },
            None => current,
        }
    }
}

/// Passing a stop of `all` leaves fewer of them.
pub proof fn passing_shrinks(all: Set<Seq<char>>, passed: Set<Seq<char>>, id: Seq<char>)
    requires
        all.finite(),
        all.contains(id),
        !passed.contains(id),
    ensures
        all.difference(passed.insert(id)).len() < all.difference(passed).len(),
{
    let left = all.difference(passed);
    assert(all.difference(passed.insert(id)) =~= left.remove(id));
    vstd::set_lib::lemma_len_difference(all, passed);
    assert(left.finite());
    assert(left.contains(id));
}

/// The station at the top of a stop.
pub open spec fn top_parent_of(stops: Map<Seq<char>, Stop>, id: Seq<char>) -> Seq<char> {
    climb(stops, id, Set::empty())
}

/// The station at the top of a stop.
pub fn top_parent(stop_id: &str, stops: &Table<Stop>) -> (r: String)
    ensures
        r@ == top_parent_of(stops@, stop_id@),
{
    let rows = stops.len();
    proof {
        table::table_keys(stops);
    }
    let mut current = stop_id.to_owned();
    let mut passed: StringHashMap<bool> = StringHashMap::new();
    assert(passed@.dom() =~= Set::empty());
    while !passed.contains_key(current.as_str())
        invariant
            stops@.dom().finite(),
            climb(stops@, current@, passed@.dom()) == top_parent_of(stops@, stop_id@),
        ensures
            current@ == top_parent_of(stops@, stop_id@),
        decreases stops@.dom().difference(passed@.dom()).len(),
    {
        let ghost was = passed@.dom();
        passed.insert(current.clone(), true);
        assert(passed@.dom() =~= was.insert(current@));
        let parent = match stops.get(current.as_str()) {
            Some(stop) => match &stop.parent_station {
                Some(parent) => parent,
                None => break,
            },
            None => break,
        };
        if text_eq(parent.as_str(), current.as_str()) {
            break;
        }
        proof {
            passing_shrinks(stops@.dom(), was, current@);
        }
        current = parent.clone();
    }
    current
}

/// The station of a stop by a table of stations, the stop itself where the table has none.
pub open spec fn station_of(stations: Map<Seq<char>, String>, id: Seq<char>) -> Seq<char> {
    if stations.contains_key(id) {
        stations[id]@
    } else {
        id
    }
}

/// The station of a stop by a table of stations.
pub fn canonical_stop_id<'a>(stations: &'a Table<String>, stop_id: &'a str) -> (r: &'a str)
    ensures
        r@ == station_of(stations@, stop_id@),
{
    match stations.get(stop_id) {
        Some(station) => station.as_str(),
        None => stop_id,
    }
}

/// When two stops count as one.
#[derive(Debug, Clone, Copy, PartialEq, Eq, Structural)]
pub enum StopMatchMode {
    /// When they are the same stop.
    Exact,
    /// When they have the same station.
    ParentStation,
}

/// Whether two stops count as one.
pub open spec fn same_stop(
    left: Seq<char>,
    right: Seq<char>,
    stations: Map<Seq<char>, String>,
    mode: StopMatchMode,
) -> bool {
    match mode {
        StopMatchMode::Exact => left == right,
        StopMatchMode::ParentStation => station_of(stations, left) == station_of(stations, right),
    }
}

/// Whether two stops count as one.
pub fn stops_match(left: &str, right: &str, stations: &Table<String>, mode: StopMatchMode) -> (r:
    bool)
    ensures
        r == same_stop(left@, right@, stations@, mode),
{
    match mode {
        StopMatchMode::Exact => text_eq(left, right),
        StopMatchMode::ParentStation => text_eq(
            canonical_stop_id(stations, left),
            canonical_stop_id(stations, right),
        ),
    }
}

/// Whether a table gives each stop the station at its top.
pub open spec fn is_station_table(
    stations: Map<Seq<char>, String>,
    stops: Map<Seq<char>, Stop>,
) -> bool {
    &&& stations.dom() == stops.dom()
    &&& forall|id: Seq<char>| #[trigger]
        stations.contains_key(id) ==> stations[id]@ == top_parent_of(stops, id)
}

/// The table that gives each stop the station at its top.
pub fn build_canonical_stop_ids(stops: &Table<Stop>) -> (r: Table<String>)
    ensures
        is_station_table(r@, stops@),
{
    let rows = stops.len();
    proof {
        table::table_keys(stops);
    }
    let mut stations: Table<String> = Table::new();
    let mut i: usize = 0;
    assert(stops.keys().take(0).to_set() =~= Set::<Seq<char>>::empty());
    while i < rows
        invariant
            i <= rows,
            rows == stops.keys().len(),
            stations@.dom() == stops.keys().take(i as int).to_set(),
            forall|id: Seq<char>| #[trigger]
                stations@.contains_key(id) ==> stations@[id]@ == top_parent_of(stops@, id),
        decreases rows - i,
    {
        let stop_id = stops.key_at(i);
        let station = top_parent(stop_id.as_str(), stops);
        stations.insert(stop_id.clone(), station);
        assert(stops.keys().take(i + 1) =~= stops.keys().take(i as int).push(stop_id@));
        proof {
            order::push_to_set(stops.keys().take(i as int), stop_id@);
        }
        assert(stations@.dom() =~= stops.keys().take(i + 1).to_set());
        i = i + 1;
    }
    assert(stops.keys().take(rows as int) =~= stops.keys());
    stations
}

/// The last segment of an identifier, under which it is filed.
pub open spec fn by_suffix() -> spec_fn(Seq<char>) -> Seq<char> {
    |id: Seq<char>| text::last_segment(id)
}

/// The index of the stops by the last segment of their identifiers.
pub fn build_suffix_index(stops: &Table<Stop>) -> (r: Table<Vec<String>>)
    ensures
        lists::is_index_by(r@, stops@.dom(), by_suffix()),
{
    let rows = stops.len();
    proof {
        table::table_keys(stops);
    }
    let ghost ids = stops.keys();
    let mut index: Table<Vec<String>> = Table::new();
    let mut i: usize = 0;
    proof {
        lists::filing_begins(index@, by_suffix());
        assert(ids.take(0) =~= seq![]);
    }
    while i < rows
        invariant
            i <= rows,
            rows == ids.len(),
            ids == stops.keys(),
            lists::is_filing(index@, ids.take(i as int), by_suffix()),
        decreases rows - i,
    {
        let stop_id = stops.key_at(i);
        let ghost before = index@;
        push_under(&mut index, id_suffix(stop_id.as_str()), stop_id.clone());
        proof {
            assert(by_suffix()(stop_id@) == text::last_segment(stop_id@));
            lists::filing_goes_on(before, index@, ids.take(i as int), stop_id@, by_suffix());
            assert(ids.take(i + 1) =~= ids.take(i as int).push(stop_id@));
        }
        i = i + 1;
    }
    assert(ids.take(rows as int) =~= ids);
    let ghost filing = index@;
    sort_lists(&mut index);
    proof {
        lists::sorted_filing_is_an_index(filing, index@, ids, by_suffix());
    }
    index
}

/// The stops that a SIRI reference may mean.
pub open spec fn meant_stops(
    index: Map<Seq<char>, Vec<String>>,
    reference: Seq<char>,
) -> Seq<Seq<char>> {
    match text::reference_suffix(reference) {
        Some(suffix) => lists::list_at(index, suffix),
        None => seq![],
    }
}

/// The stops that a SIRI reference may mean, by an index of the last segments.
pub fn resolve_reference(index: &Table<Vec<String>>, reference: &str) -> (r: Vec<String>)
    ensures
        text::texts(r@) == meant_stops(index@, reference@),
{
    let found = match siri_reference_suffix(reference) {
        Some(suffix) => match index.get(suffix) {
            Some(list) => copy_list(list),
            None => Vec::new(),
        },
        None => Vec::new(),
    };
    assert(text::texts(found@) =~= meant_stops(index@, reference@));
    found
}

/// The law of references: by the index of the stops, one means the stops that end in its last
/// segment that is not empty, each once and in order.
pub proof fn references_mean_their_suffix(
    index: Map<Seq<char>, Vec<String>>,
    ids: Set<Seq<char>>,
    reference: Seq<char>,
)
    requires
        lists::is_index_by(index, ids, by_suffix()),
    ensures
        order::strictly_sorted(meant_stops(index, reference)),
        forall|id: Seq<char>| #[trigger]
            meant_stops(index, reference).contains(id) <==> ids.contains(id)
                && text::reference_suffix(reference) == Some(text::last_segment(id)),
{
    if let Some(suffix) = text::reference_suffix(reference) {
        assert forall|id: Seq<char>| #[trigger]
            meant_stops(index, reference).contains(id) <==> ids.contains(id)
                && text::reference_suffix(reference) == Some(text::last_segment(id)) by {
            assert(lists::list_at(index, suffix).contains(id) <==> ids.contains(id) && by_suffix()(
                id,
            ) == suffix);
        }
    }
}

/// Whether a way leads up from stop to stop and then to `current`, through no stop twice.
spec fn is_way(stops: Map<Seq<char>, Stop>, way: Seq<Seq<char>>, current: Seq<char>) -> bool {
    &&& way.no_duplicates()
    &&& forall|i: int|
        0 <= i < way.len() ==> parent_of(stops, #[trigger] way[i]) == Some(
            if i + 1 < way.len() {
                way[i + 1]
            } else {
                current
            },
        )
    &&& way.len() > 0 ==> way.last() != current
}

/// A way that has come back to one of its stops leads from there round to it again.
proof fn round_leads_back(stops: Map<Seq<char>, Stop>, way: Seq<Seq<char>>, j: int, i: int)
    requires
        stops.dom().finite(),
        0 <= j <= i <= way.len(),
        j < way.len(),
        is_way(stops, way, way[j]),
    ensures
        climb(
            stops,
            if i < way.len() {
                way[i]
            } else {
                way[j]
            },
            way.subrange(j, i).to_set(),
        ) == way[j],
    decreases way.len() - i,
{
    let passed = way.subrange(j, i);
    if i == way.len() {
        assert(passed[0] == way[j]);
        assert(passed.contains(way[j]));
    } else {
        round_leads_back(stops, way, j, i + 1);
        assert(!passed.contains(way[i]));
        assert(way.subrange(j, i + 1) =~= passed.push(way[i]));
        order::push_to_set(passed, way[i]);
        assert(parent_of(stops, way[i]) is Some);
        if i + 1 < way.len() {
            assert(way[i] != way[i + 1]);
        } else {
            assert(way[i] == way.last());
        }
        passing_shrinks_if_known(stops, passed.to_set(), way[i]);
    }
}

proof fn passing_shrinks_if_known(
    stops: Map<Seq<char>, Stop>,
    passed: Set<Seq<char>>,
    id: Seq<char>,
)
    requires
        stops.dom().finite(),
        parent_of(stops, id) is Some,
        !passed.contains(id),
    ensures
        stops.dom().difference(passed.insert(id)).len() < stops.dom().difference(passed).len(),
{
    passing_shrinks(stops.dom(), passed, id);
}

proof fn end_stays(
    stops: Map<Seq<char>, Stop>,
    way: Seq<Seq<char>>,
    current: Seq<char>,
)
    requires
        stops.dom().finite(),
        is_way(stops, way, current),
    ensures
        top_parent_of(stops, climb(stops, current, way.to_set())) == climb(
            stops,
            current,
            way.to_set(),
        ),
    decreases stops.dom().difference(way.to_set()).len(),
{
    let passed = way.to_set();
    if passed.contains(current) {
        let j = choose|j: int| 0 <= j < way.len() && way[j] == current;
        round_leads_back(stops, way, j, j);
        assert(way.subrange(j, j).to_set() =~= Set::<Seq<char>>::empty());
    } else {
        match parent_of(stops, current) {
            Some(parent) => if parent != current {
                passing_shrinks_if_known(stops, passed, current);
                let longer = way.push(current);
                order::push_to_set(way, current);
                assert(!way.contains(current));
                assert forall|i: int| 0 <= i < longer.len() implies parent_of(
                    stops,
                    #[trigger] longer[i],
                ) == Some(
                    if i + 1 < longer.len() {
                        longer[i + 1]
                    } else {
                        parent
                    },
                ) by {
                    if i < way.len() {
                        assert(longer[i] == way[i]);
                    }
                }
                end_stays(stops, longer, parent);
            },
            None => {},
        }
    }
}

/// The law of stations: a station is its own station.
pub proof fn stations_are_their_own(stops: Map<Seq<char>, Stop>, id: Seq<char>)
    requires
        stops.dom().finite(),
    ensures
        top_parent_of(stops, top_parent_of(stops, id)) == top_parent_of(stops, id),
{
    let none: Seq<Seq<char>> = seq![];
    assert(none.to_set() =~= Set::<Seq<char>>::empty());
    end_stays(stops, none, id);
}

} // verus!
