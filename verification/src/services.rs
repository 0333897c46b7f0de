//! Services: the days on which they run, and the zones in which their times are meant.

use crate::clock::{self, is_zone_name};
use crate::gtfs::{self, Agency, Calendar, CalendarDate, Exception, Route};
use crate::order;
use crate::table::{self, Table};
use crate::text::{self, text_eq};
use std::collections::HashMap;
use vstd::prelude::*;

verus! {

/// What the last of the exceptions for a day says: whether the service runs.
pub open spec fn last_exception(dates: Seq<CalendarDate>, day: i32) -> Option<bool>
    decreases dates.len(),
{
    if dates.len() == 0 {
        None
    } else if dates.last().date == day {
        Some(dates.last().exception_type == Exception::Added)
    } else {
        last_exception(dates.drop_last(), day)
    }
}

/// What the first of the exceptions for a day says: whether the service runs.
pub open spec fn first_exception(dates: Seq<CalendarDate>, day: i32) -> Option<bool>
    decreases dates.len(),
{
    if dates.len() == 0 {
        None
    } else if dates[0].date == day {
        Some(dates[0].exception_type == Exception::Added)
    } else {
        first_exception(dates.drop_first(), day)
    }
}

/// Whether a service runs on a day: as an exception says, else as its calendar does.
pub open spec fn runs(
    exception: Option<bool>,
    calendars: Map<Seq<char>, Calendar>,
    service: Seq<char>,
    day: i32,
) -> bool {
    match exception {
        Some(added) => added,
        None => calendars.contains_key(service) && gtfs::calendar_covers(calendars[service], day),
    }
}

/// Whether the calendar of a service has it run on a day.
pub fn calendar_runs(calendars: &Table<Calendar>, service_id: &str, day: i32) -> (r: bool)
    ensures
        r == runs(None, calendars@, service_id@, day),
{
    match calendars.get(service_id) {
        Some(calendar) => calendar.covers(day),
        None => false,
    }
}

/// Whether `days` holds, for each day, what the last of the exceptions for it says.
pub open spec fn is_exception_map(days: Map<i32, bool>, dates: Seq<CalendarDate>) -> bool {
    forall|day: i32|
        match last_exception(dates, day) {
            Some(added) => #[trigger] days.contains_key(day) && days[day] == added,
            None => !days.contains_key(day),
        }
}

fn exception_map(dates: &Vec<CalendarDate>) -> (r: HashMap<i32, bool>)
    ensures
        is_exception_map(r@, dates@),
{
    broadcast use vstd::std_specs::hash::group_hash_axioms;

    let mut days: HashMap<i32, bool> = HashMap::new();
    let mut i: usize = 0;
    while i < dates.len()
        invariant
            i <= dates@.len(),
            is_exception_map(days@, dates@.take(i as int)),
        decreases dates@.len() - i,
    {
        let date = &dates[i];
        let ghost before = days@;
        days.insert(date.date, date.exception_type == Exception::Added);
        assert(dates@.take(i + 1).drop_last() =~= dates@.take(i as int));
        assert(dates@.take(i + 1).last() == *date);
        i = i + 1;
    }
    assert(dates@.take(i as int) =~= dates@);
    days
}

/// Whether a table holds the exceptions of all services.
pub open spec fn is_exception_index(
    exceptions: Map<Seq<char>, HashMap<i32, bool>>,
    dates: Map<Seq<char>, Vec<CalendarDate>>,
) -> bool {
    &&& exceptions.dom() == dates.dom()
    &&& forall|service: Seq<char>| #[trigger]
        exceptions.contains_key(service) ==> is_exception_map(
            exceptions[service]@,
            dates[service]@,
        )
}

/// The exceptions of all services, by day.
pub fn build_exceptions(dates: &Table<Vec<CalendarDate>>) -> (r: Table<HashMap<i32, bool>>)
    ensures
        is_exception_index(r@, dates@),
{
    let rows = dates.len();
    proof {
        table::table_keys(dates);
    }
    let ghost ids = dates.keys();
    let mut exceptions: Table<HashMap<i32, bool>> = Table::new();
    let mut i: usize = 0;
    assert(ids.take(0).to_set() =~= Set::<Seq<char>>::empty());
    while i < rows
        invariant
            i <= rows,
            rows == ids.len(),
            ids == dates.keys(),
            exceptions@.dom() == ids.take(i as int).to_set(),
            forall|service: Seq<char>| #[trigger]
                exceptions@.contains_key(service) ==> is_exception_map(
                    exceptions@[service]@,
                    dates@[service]@,
                ),
        decreases rows - i,
    {
        let service_id = dates.key_at(i);
        exceptions.insert(service_id.clone(), exception_map(dates.value_at(i)));
        assert(ids.take(i + 1) =~= ids.take(i as int).push(service_id@));
        proof {
            order::push_to_set(ids.take(i as int), service_id@);
        }
        assert(exceptions@.dom() =~= ids.take(i + 1).to_set());
        i = i + 1;
    }
    assert(ids.take(rows as int) =~= ids);
    exceptions
}

/// What the exceptions of all services say of a service on a day.
pub open spec fn exception_at(
    exceptions: Map<Seq<char>, HashMap<i32, bool>>,
    service: Seq<char>,
    day: i32,
) -> Option<bool> {
    if exceptions.contains_key(service) && exceptions[service]@.contains_key(day) {
        Some(exceptions[service]@[day])
    } else {
        None
    }
}

/// What the exceptions of all services say of a service on a day.
pub fn find_exception(
    exceptions: &Table<HashMap<i32, bool>>,
    service_id: &str,
    day: i32,
) -> (r: Option<bool>)
    ensures
        r == exception_at(exceptions@, service_id@, day),
{
    broadcast use vstd::std_specs::hash::group_hash_axioms;

    match exceptions.get(service_id) {
        Some(days) => match days.get(&day) {
            Some(added) => Some(*added),
            None => None,
        },
        None => None,
    }
}

/// The law of the exceptions: by their table a service has, on each day, the exception that comes
/// last in the schedule.
pub proof fn exceptions_are_the_last(
    exceptions: Map<Seq<char>, HashMap<i32, bool>>,
    dates: Map<Seq<char>, Vec<CalendarDate>>,
    service: Seq<char>,
    day: i32,
)
    requires
        is_exception_index(exceptions, dates),
    ensures
        exception_at(exceptions, service, day) == (if dates.contains_key(service) {
            last_exception(dates[service]@, day)
        } else {
            None
        }),
{
    assert(exceptions.dom().contains(service) <==> dates.dom().contains(service));
    if exceptions.contains_key(service) {
        assert(is_exception_map(exceptions[service]@, dates[service]@));
    }
}

/// What the first of the exceptions for a day says.
pub fn find_first_exception(dates: &Vec<CalendarDate>, day: i32) -> (r: Option<bool>)
    ensures
        r == first_exception(dates@, day),
{
    let mut i: usize = 0;
    assert(dates@.skip(0) =~= dates@);
    while i < dates.len()
        invariant
            i <= dates@.len(),
            first_exception(dates@, day) == first_exception(dates@.skip(i as int), day),
        decreases dates@.len() - i,
    {
        assert(dates@.skip(i as int)[0] == dates@[i as int]);
        assert(dates@.skip(i as int).drop_first() =~= dates@.skip(i + 1));
        if dates[i].date == day {
            return Some(dates[i].exception_type == Exception::Added);
        }
        i = i + 1;
    }
    None
}

/// The zone of the first agency that names one, Paris where none does.
pub open spec fn first_zone(agencies: Seq<Agency>) -> Seq<char>
    decreases agencies.len(),
{
    if agencies.len() == 0 {
        clock::DEFAULT_ZONE@
    } else if clock::is_zone(agencies[0].timezone@) {
        agencies[0].timezone@
    } else {
        first_zone(agencies.drop_first())
    }
}

/// The zone of the last agency of the given identifier that names one.
pub open spec fn agency_zone(agencies: Seq<Agency>, id: Seq<char>) -> Option<Seq<char>>
    decreases agencies.len(),
{
    if agencies.len() == 0 {
        None
    } else if text::opt_string(agencies.last().id) == Some(id) && clock::is_zone(
        agencies.last().timezone@,
    ) {
        Some(agencies.last().timezone@)
    } else {
        agency_zone(agencies.drop_last(), id)
    }
}

/// The zone of a route: that of its agency, else that of the first agency that names one.
pub open spec fn route_zone(agencies: Seq<Agency>, route: Route) -> Seq<char> {
    match text::opt_string(route.agency_id) {
        Some(id) => match agency_zone(agencies, id) {
            Some(zone) => zone,
            None => first_zone(agencies),
        },
        None => first_zone(agencies),
    }
}

/// The zone of the first agency that names one.
pub fn find_first_zone(agencies: &Vec<Agency>) -> (r: String)
    ensures
        r@ == first_zone(agencies@),
        clock::is_zone(r@),
{
    let mut i: usize = 0;
    assert(agencies@.skip(0) =~= agencies@);
    while i < agencies.len()
        invariant
            i <= agencies@.len(),
            first_zone(agencies@) == first_zone(agencies@.skip(i as int)),
        decreases agencies@.len() - i,
    {
        assert(agencies@.skip(i as int)[0] == agencies@[i as int]);
        assert(agencies@.skip(i as int).drop_first() =~= agencies@.skip(i + 1));
        if is_zone_name(agencies[i].timezone.as_str()) {
            return agencies[i].timezone.clone();
        }
        i = i + 1;
    }
    default_zone()
}

/// The name of the zone of Paris.
pub fn default_zone() -> (r: String)
    ensures
        r@ == clock::DEFAULT_ZONE@,
        clock::is_zone(r@),
{
    let _known = is_zone_name(clock::DEFAULT_ZONE);
    clock::DEFAULT_ZONE.to_owned()
}

fn find_agency_zone(agencies: &Vec<Agency>, id: &str) -> (r: Option<String>)
    ensures
        text::opt_string(r) == agency_zone(agencies@, id@),
        r matches Some(zone) ==> clock::is_zone(zone@),
{
    let mut i = agencies.len();
    assert(agencies@.take(i as int) =~= agencies@);
    while i > 0
        invariant
            i <= agencies@.len(),
            agency_zone(agencies@, id@) == agency_zone(agencies@.take(i as int), id@),
        decreases i,
    {
        assert(agencies@.take(i as int).last() == agencies@[i - 1]);
        assert(agencies@.take(i as int).drop_last() =~= agencies@.take(i - 1));
        i = i - 1;
        let agency = &agencies[i];
        let found = match &agency.id {
            Some(agency_id) => text_eq(agency_id.as_str(), id),
            None => false,
        };
        if found && is_zone_name(agency.timezone.as_str()) {
            return Some(agency.timezone.clone());
        }
    }
    None
}

/// Whether a table gives each route its zone.
pub open spec fn is_zone_table(
    zones: Map<Seq<char>, String>,
    agencies: Seq<Agency>,
    routes: Map<Seq<char>, Route>,
) -> bool {
    &&& zones.dom() == routes.dom()
    &&& forall|route: Seq<char>| #[trigger]
        zones.contains_key(route) ==> zones[route]@ == route_zone(agencies, routes[route])
            && clock::is_zone(zones[route]@)
}

/// The zones of all routes.
pub fn build_route_zones(agencies: &Vec<Agency>, routes: &Table<Route>) -> (r: Table<String>)
    ensures
        is_zone_table(r@, agencies@, routes@),
{
    let first = find_first_zone(agencies);
    let rows = routes.len();
    proof {
        table::table_keys(routes);
    }
    let ghost ids = routes.keys();
    let mut zones: Table<String> = Table::new();
    let mut i: usize = 0;
    assert(ids.take(0).to_set() =~= Set::<Seq<char>>::empty());
    while i < rows
        invariant
            i <= rows,
            rows == ids.len(),
            ids == routes.keys(),
            first@ == first_zone(agencies@),
            clock::is_zone(first@),
            zones@.dom() == ids.take(i as int).to_set(),
            forall|route: Seq<char>| #[trigger]
                zones@.contains_key(route) ==> zones@[route]@ == route_zone(
                    agencies@,
                    routes@[route],
                ) && clock::is_zone(zones@[route]@),
        decreases rows - i,
    {
        let route_id = routes.key_at(i);
        let route = routes.value_at(i);
        let of_agency = match &route.agency_id {
            Some(agency_id) => find_agency_zone(agencies, agency_id.as_str()),
            None => None,
        };
        let zone = match of_agency {
            Some(zone) => zone,
            None => first.clone(),
        };
        zones.insert(route_id.clone(), zone);
        assert(ids.take(i + 1) =~= ids.take(i as int).push(route_id@));
        proof {
            order::push_to_set(ids.take(i as int), route_id@);
        }
        assert(zones@.dom() =~= ids.take(i + 1).to_set());
        i = i + 1;
    }
    assert(ids.take(rows as int) =~= ids);
    zones
}

/// The zone that a table gives a route, Paris where it gives none.
pub open spec fn zone_at(zones: Map<Seq<char>, String>, route: Seq<char>) -> Seq<char> {
    if zones.contains_key(route) {
        zones[route]@
    } else {
        clock::DEFAULT_ZONE@
    }
}

/// The zone that a table gives a route.
pub fn zone_for_route(zones: &Table<String>, route_id: &str) -> (r: String)
    ensures
        r@ == zone_at(zones@, route_id@),
{
    match zones.get(route_id) {
        Some(zone) => zone.clone(),
        None => clock::DEFAULT_ZONE.to_owned(),
    }
}

} // verus!
