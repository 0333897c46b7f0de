//! What holds of service days, of zones, of stations and of what references mean.

use crate::adaptive_matching;
use crate::clock;
use crate::directions::{self, DirectionPattern};
use crate::gtfs::{Agency, Calendar, CalendarDate, Exception, Gtfs, Stop};
use crate::keys;
use crate::lists;
use crate::matching::{self, GtfsMatchIndex};
use crate::order;
use crate::services;
use crate::stops;
use crate::text;
use crate::text_laws;
use vstd::prelude::*;

verus! {

/// Whether a calendar has its service run on the weekday of a day: day 1 is a Monday.
pub open spec fn has_weekday(calendar: Calendar, day: int) -> bool {
    ||| day % 7 == 1 && calendar.monday
    ||| day % 7 == 2 && calendar.tuesday
    ||| day % 7 == 3 && calendar.wednesday
    ||| day % 7 == 4 && calendar.thursday
    ||| day % 7 == 5 && calendar.friday
    ||| day % 7 == 6 && calendar.saturday
    ||| day % 7 == 0 && calendar.sunday
}

/// Whether the calendar of a service has it run on a day: between its two ends, both counted, on
/// the weekdays that it names.
pub open spec fn calendar_says(schedule: Gtfs, service: Seq<char>, day: i32) -> bool {
    &&& schedule.calendar@.contains_key(service)
    &&& schedule.calendar@[service].start_date <= day
    &&& day <= schedule.calendar@[service].end_date
    &&& -95_746_129 <= day <= 95_745_399
    &&& has_weekday(schedule.calendar@[service], day as int)
}

/// The exceptions of a service, in the order of the schedule.
pub open spec fn exceptions_of(schedule: Gtfs, service: Seq<char>) -> Seq<CalendarDate> {
    if schedule.calendar_dates@.contains_key(service) {
        schedule.calendar_dates@[service]@
    } else {
        seq![]
    }
}

/// Whether an exception is the first for its day.
pub open spec fn is_first_for(dates: Seq<CalendarDate>, at: int, day: i32) -> bool {
    &&& 0 <= at < dates.len()
    &&& dates[at].date == day
    &&& forall|i: int| 0 <= i < at ==> (#[trigger] dates[i]).date != day
}

/// Whether an exception is the last for its day.
pub open spec fn is_last_for(dates: Seq<CalendarDate>, at: int, day: i32) -> bool {
    &&& 0 <= at < dates.len()
    &&& dates[at].date == day
    &&& forall|i: int| at < i < dates.len() ==> (#[trigger] dates[i]).date != day
}

/// Whether exceptions say nothing of a day.
pub open spec fn are_silent(dates: Seq<CalendarDate>, day: i32) -> bool {
    forall|i: int| 0 <= i < dates.len() ==> (#[trigger] dates[i]).date != day
}

proof fn last_exception_is_the_last(dates: Seq<CalendarDate>, day: i32)
    ensures
        services::last_exception(dates, day) is None <==> are_silent(dates, day),
        services::last_exception(dates, day) matches Some(added) ==> exists|at: int| #[trigger]
            is_last_for(dates, at, day) && (added <==> dates[at].exception_type
                == Exception::Added),
    decreases dates.len(),
{
    if dates.len() > 0 {
        let rest = dates.drop_last();
        let n = rest.len() as int;
        last_exception_is_the_last(rest, day);
        assert(dates[n] == dates.last());
        assert forall|i: int| 0 <= i < n implies #[trigger] dates[i] == rest[i] by {}
        if dates[n].date == day {
            assert(is_last_for(dates, n, day));
        } else if services::last_exception(rest, day) is Some {
            let added = services::last_exception(rest, day)->0;
            let at = choose|at: int| #[trigger]
                is_last_for(rest, at, day) && (added <==> rest[at].exception_type
                    == Exception::Added);
            assert(is_last_for(dates, at, day));
            assert(dates[at].date == day);
        } else {
            assert forall|i: int| 0 <= i < dates.len() implies (#[trigger] dates[i]).date
                != day by {
                if i < n {
                    assert(rest[i].date != day);
                }
            }
        }
    }
}

proof fn first_exception_is_the_first(dates: Seq<CalendarDate>, day: i32)
    ensures
        services::first_exception(dates, day) is None <==> are_silent(dates, day),
        services::first_exception(dates, day) matches Some(added) ==> exists|at: int| #[trigger]
            is_first_for(dates, at, day) && (added <==> dates[at].exception_type
                == Exception::Added),
    decreases dates.len(),
{
    if dates.len() > 0 {
        let rest = dates.drop_first();
        first_exception_is_the_first(rest, day);
        assert forall|i: int| 0 <= i < rest.len() implies #[trigger] rest[i] == dates[i + 1] by {}
        if dates[0].date == day {
            assert(is_first_for(dates, 0, day));
        } else if services::first_exception(rest, day) is Some {
            let added = services::first_exception(rest, day)->0;
            let at = choose|at: int| #[trigger]
                is_first_for(rest, at, day) && (added <==> rest[at].exception_type
                    == Exception::Added);
            assert forall|i: int| 0 <= i < at + 1 implies (#[trigger] dates[i]).date != day by {
                if i > 0 {
                    assert(rest[i - 1].date != day);
                }
            }
            assert(is_first_for(dates, at + 1, day));
            assert(dates[at + 1] == rest[at]);
        } else {
            assert forall|i: int| 0 <= i < dates.len() implies (#[trigger] dates[i]).date
                != day by {
                if i > 0 {
                    assert(rest[i - 1].date != day);
                }
            }
        }
    }
}

proof fn calendars_say(schedule: Gtfs, service: Seq<char>, day: i32)
    ensures
        services::runs(None, schedule.calendar@, service, day) <==> calendar_says(
            schedule,
            service,
            day,
        ),
{
}

/// The law of services in the strict match: one runs on a day for which it has exceptions exactly
/// if the last of them adds it, and on any other exactly if its calendar says so.
pub proof fn last_exception_decides(
    index: GtfsMatchIndex,
    schedule: Gtfs,
    service: Seq<char>,
    day: i32,
    at: int,
)
    requires
        matching::is_index_of(index, schedule),
    ensures
        is_last_for(exceptions_of(schedule, service), at, day) ==> (index.is_running(
            schedule,
            service,
            day,
        ) <==> exceptions_of(schedule, service)[at].exception_type == Exception::Added),
        are_silent(exceptions_of(schedule, service), day) ==> (index.is_running(
            schedule,
            service,
            day,
        ) <==> calendar_says(schedule, service, day)),
{
    let dates = exceptions_of(schedule, service);
    services::exceptions_are_the_last(
        index.service_exceptions@,
        schedule.calendar_dates@,
        service,
        day,
    );
    last_exception_is_the_last(dates, day);
    calendars_say(schedule, service, day);
    if is_last_for(dates, at, day) {
        let added = services::last_exception(dates, day)->0;
        let other = choose|other: int| #[trigger]
            is_last_for(dates, other, day) && (added <==> dates[other].exception_type
                == Exception::Added);
        assert(dates[at].date == day && dates[other].date == day);
        assert(other == at);
    }
}

/// The law of services in the tolerant match: one runs on a day for which it has exceptions exactly
/// if the first of them adds it, and on any other exactly if its calendar says so.
pub proof fn first_exception_decides(schedule: Gtfs, service: Seq<char>, day: i32, at: int)
    ensures
        is_first_for(exceptions_of(schedule, service), at, day) ==> (adaptive_matching::is_running(
            schedule,
            service,
            day,
        ) <==> exceptions_of(schedule, service)[at].exception_type == Exception::Added),
        are_silent(exceptions_of(schedule, service), day) ==> (adaptive_matching::is_running(
            schedule,
            service,
            day,
        ) <==> calendar_says(schedule, service, day)),
{
    let dates = exceptions_of(schedule, service);
    first_exception_is_the_first(dates, day);
    calendars_say(schedule, service, day);
    if is_first_for(dates, at, day) {
        let added = services::first_exception(dates, day)->0;
        let other = choose|other: int| #[trigger]
            is_first_for(dates, other, day) && (added <==> dates[other].exception_type
                == Exception::Added);
        assert(dates[at].date == day && dates[other].date == day);
        assert(other == at);
    }
}

/// Whether an agency is that of a route and has a zone that is known.
pub open spec fn is_zoned_agency(agency: Agency, id: Option<String>) -> bool {
    &&& id is Some
    &&& agency.id is Some
    &&& agency.id->0@ == id->0@
    &&& clock::is_zone(agency.timezone@)
}

/// Whether a zone is that of the first agency with a zone that is known, or Paris where none has.
pub open spec fn is_first_zone(agencies: Seq<Agency>, zone: Seq<char>) -> bool {
    ||| zone == "Europe/Paris"@ && forall|i: int|
        0 <= i < agencies.len() ==> !clock::is_zone((#[trigger] agencies[i]).timezone@)
    ||| exists|i: int|
        {
            &&& 0 <= i < agencies.len()
            &&& zone == (#[trigger] agencies[i]).timezone@
            &&& clock::is_zone(zone)
            &&& forall|j: int|
                0 <= j < i ==> !clock::is_zone((#[trigger] agencies[j]).timezone@)
        }
}

proof fn first_zone_is_the_first(agencies: Seq<Agency>)
    ensures
        is_first_zone(agencies, services::first_zone(agencies)),
    decreases agencies.len(),
{
    if agencies.len() > 0 {
        let rest = agencies.drop_first();
        let zone = services::first_zone(agencies);
        first_zone_is_the_first(rest);
        assert forall|i: int| 0 <= i < rest.len() implies #[trigger] rest[i] == agencies[i + 1] by {}
        if clock::is_zone(agencies[0].timezone@) {
            assert(zone == agencies[0].timezone@);
        } else if exists|i: int|
            {
                &&& 0 <= i < rest.len()
                &&& zone == (#[trigger] rest[i]).timezone@
                &&& clock::is_zone(zone)
                &&& forall|j: int|
                    0 <= j < i ==> !clock::is_zone((#[trigger] rest[j]).timezone@)
            } {
            let i = choose|i: int|
                {
                    &&& 0 <= i < rest.len()
                    &&& zone == (#[trigger] rest[i]).timezone@
                    &&& clock::is_zone(zone)
                    &&& forall|j: int|
                        0 <= j < i ==> !clock::is_zone((#[trigger] rest[j]).timezone@)
                };
            assert(zone == agencies[i + 1].timezone@);
            assert forall|j: int| 0 <= j < i + 1 implies !clock::is_zone(
                (#[trigger] agencies[j]).timezone@,
            ) by {
                if j > 0 {
                    assert(!clock::is_zone(rest[j - 1].timezone@));
                }
            }
        } else {
            assert forall|j: int| 0 <= j < agencies.len() implies !clock::is_zone(
                (#[trigger] agencies[j]).timezone@,
            ) by {
                if j > 0 {
                    assert(!clock::is_zone(rest[j - 1].timezone@));
                }
            }
        }
    }
}

proof fn agency_zone_is_the_last(agencies: Seq<Agency>, id: Option<String>)
    requires
        id is Some,
    ensures
        services::agency_zone(agencies, id->0@) is None <==> forall|i: int|
            0 <= i < agencies.len() ==> !is_zoned_agency(#[trigger] agencies[i], id),
        services::agency_zone(agencies, id->0@) matches Some(zone) ==> exists|i: int|
            {
                &&& 0 <= i < agencies.len()
                &&& is_zoned_agency(#[trigger] agencies[i], id)
                &&& zone == agencies[i].timezone@
                &&& forall|j: int|
                    i < j < agencies.len() ==> !is_zoned_agency(#[trigger] agencies[j], id)
            },
    decreases agencies.len(),
{
    if agencies.len() > 0 {
        let rest = agencies.drop_last();
        let n = rest.len() as int;
        agency_zone_is_the_last(rest, id);
        assert(agencies[n] == agencies.last());
        assert forall|i: int| 0 <= i < n implies #[trigger] agencies[i] == rest[i] by {}
        if is_zoned_agency(agencies[n], id) {
            assert(services::agency_zone(agencies, id->0@) == Some(agencies[n].timezone@));
        } else if services::agency_zone(rest, id->0@) is Some {
            let zone = services::agency_zone(rest, id->0@)->0;
            let i = choose|i: int|
                {
                    &&& 0 <= i < rest.len()
                    &&& is_zoned_agency(#[trigger] rest[i], id)
                    &&& zone == rest[i].timezone@
                    &&& forall|j: int|
                        i < j < rest.len() ==> !is_zoned_agency(#[trigger] rest[j], id)
                };
            assert(is_zoned_agency(agencies[i], id));
            assert forall|j: int| i < j < agencies.len() implies !is_zoned_agency(
                #[trigger] agencies[j],
                id,
            ) by {
                if j < n {
                    assert(agencies[j] == rest[j]);
                }
            }
        } else {
            assert forall|j: int| 0 <= j < agencies.len() implies !is_zoned_agency(
                #[trigger] agencies[j],
                id,
            ) by {
                if j < n {
                    assert(agencies[j] == rest[j]);
                }
            }
        }
    }
}

/// Whether a zone is that of a route in the strict match: that of its agency, of the last that has
/// one; where there is none, that of the first agency that has one; and Paris for a route that the
/// schedule does not know, or where no agency has one.
pub open spec fn is_strict_zone(schedule: Gtfs, route: Seq<char>, zone: Seq<char>) -> bool {
    let agencies = schedule.agencies@;
    let id = schedule.routes@[route].agency_id;
    if !schedule.routes@.contains_key(route) {
        zone == "Europe/Paris"@
    } else if exists|i: int|
        0 <= i < agencies.len() && is_zoned_agency(#[trigger] agencies[i], id) {
        exists|i: int|
            {
                &&& 0 <= i < agencies.len()
                &&& is_zoned_agency(#[trigger] agencies[i], id)
                &&& zone == agencies[i].timezone@
                &&& forall|j: int|
                    i < j < agencies.len() ==> !is_zoned_agency(#[trigger] agencies[j], id)
            }
    } else {
        is_first_zone(agencies, zone)
    }
}

/// The law of zones in the strict match: a route has the zone of its agency, else the first one
/// that is known, else Paris.
pub proof fn strict_zone_is_that_of_the_agency(
    index: GtfsMatchIndex,
    schedule: Gtfs,
    route: Seq<char>,
)
    requires
        matching::is_index_of(index, schedule),
    ensures
        is_strict_zone(
            schedule,
            route,
            services::zone_at(index.route_timezones@, route),
        ),
{
    let agencies = schedule.agencies@;
    let zones = index.route_timezones@;
    first_zone_is_the_first(agencies);
    if schedule.routes@.contains_key(route) {
        assert(zones.contains_key(route));
        let id = schedule.routes@[route].agency_id;
        if id is Some {
            agency_zone_is_the_last(agencies, id);
        }
    } else {
        assert(!zones.contains_key(route));
    }
}

/// Whether a stop has the given parent.
pub open spec fn has_parent(
    all: Map<Seq<char>, Stop>,
    id: Seq<char>,
    parent: Seq<char>,
) -> bool {
    &&& all.contains_key(id)
    &&& all[id].parent_station is Some
    &&& all[id].parent_station->0@ == parent
}

/// Whether a stop has a parent.
pub open spec fn is_child(all: Map<Seq<char>, Stop>, id: Seq<char>) -> bool {
    all.contains_key(id) && all[id].parent_station is Some
}

/// Whether a way leads up from stop to parent, through no stop twice.
pub open spec fn is_way_up(all: Map<Seq<char>, Stop>, way: Seq<Seq<char>>) -> bool {
    &&& way.no_duplicates()
    &&& forall|i: int|
        0 <= i < way.len() - 1 ==> has_parent(all, #[trigger] way[i], way[i + 1])
}

/// The law of stations: the way up from a stop ends at the first that has no parent or is its own;
/// where it comes to a stop that it passed before, it ends there.
pub proof fn ways_lead_to_the_station(all: Map<Seq<char>, Stop>, way: Seq<Seq<char>>)
    requires
        all.dom().finite(),
        way.len() > 0,
        is_way_up(all, way),
    ensures
        !is_child(all, way.last()) ==> stops::top_parent_of(all, way[0]) == way.last(),
        has_parent(all, way.last(), way.last()) ==> stops::top_parent_of(all, way[0])
            == way.last(),
        forall|back: int|
            0 <= back < way.len() && has_parent(all, way.last(), #[trigger] way[back])
                ==> stops::top_parent_of(all, way[0]) == way[back],
{
    let n = way.len() - 1;
    assert(way.take(0).to_set() =~= Set::empty());
    assert(way.last() == way[n]);
    if !is_child(all, way[n]) {
        climbing_ends(all, way, 0, way[n]);
    }
    if has_parent(all, way[n], way[n]) {
        climbing_ends(all, way, 0, way[n]);
    }
    assert forall|back: int|
        0 <= back < way.len() && has_parent(all, way.last(), #[trigger] way[back]) implies
        stops::top_parent_of(all, way[0]) == way[back] by {
        climbing_ends(all, way, 0, way[back]);
    }
}

proof fn climbing_ends(
    all: Map<Seq<char>, Stop>,
    way: Seq<Seq<char>>,
    i: int,
    end: Seq<char>,
)
    requires
        all.dom().finite(),
        0 <= i < way.len(),
        is_way_up(all, way),
        end == way.last() && !is_child(all, end) || way.contains(end) && has_parent(
            all,
            way.last(),
            end,
        ),
    ensures
        stops::climb(all, way[i], way.take(i).to_set()) == end,
    decreases way.len() - i,
{
    let passed = way.take(i).to_set();
    let next = way.take(i + 1);
    let n = way.len() - 1;
    assert(!passed.contains(way[i])) by {
        if passed.contains(way[i]) {
            let j = choose|j: int| 0 <= j < way.take(i).len() && way.take(i)[j] == way[i];
            assert(way[j] == way[i]);
        }
    }
    assert(passed.insert(way[i]) =~= next.to_set()) by {
        assert(next =~= way.take(i).push(way[i]));
        assert forall|x: Seq<char>| #[trigger] passed.insert(way[i]).contains(x)
            <==> next.to_set().contains(x) by {
            if passed.contains(x) {
                let j = choose|j: int| 0 <= j < way.take(i).len() && way.take(i)[j] == x;
                assert(next[j] == x);
            }
            if x == way[i] {
                assert(next[i] == x);
            }
            if next.contains(x) {
                let j = choose|j: int| 0 <= j < next.len() && next[j] == x;
                if j < i {
                    assert(way.take(i)[j] == x);
                }
            }
        }
    }
    if i < n {
        assert(has_parent(all, way[i], way[i + 1]));
        assert(way[i] != way[i + 1]);
        climbing_ends(all, way, i + 1, end);
    } else {
        assert(way[i] == way.last());
        if is_child(all, way[i]) && end != way[i] {
            let j = choose|j: int| 0 <= j < way.len() && way[j] == end;
            assert(next[j] == end);
            assert(next.to_set().contains(end));
            assert(stops::parent_of(all, way[i]) == Some(end));
            assert(stops::climb(all, end, passed.insert(way[i])) == end);
        }
    }
}

/// The law of stations: the strict match takes a known stop for the station at its top, and one
/// that is not known for itself.
pub proof fn stations_are_at_the_top(index: GtfsMatchIndex, schedule: Gtfs, id: Seq<char>)
    requires
        matching::is_index_of(index, schedule),
    ensures
        schedule.stops@.contains_key(id) ==> stops::station_of(index.canonical_stop_ids@, id)
            == stops::top_parent_of(schedule.stops@, id),
        !schedule.stops@.contains_key(id) ==> stops::station_of(index.canonical_stop_ids@, id)
            == id,
{
    assert(index.canonical_stop_ids@.dom() == schedule.stops@.dom());
    assert(index.canonical_stop_ids@.contains_key(id) <==> schedule.stops@.contains_key(id));
}

/// Whether an identifier ends in a part: it is the part, or the part after a colon.
pub open spec fn ends_in_part(id: Seq<char>, part: Seq<char>) -> bool {
    id == part || exists|head: Seq<char>| id == #[trigger] (head + seq![':'] + part)
}

proof fn segments_are_parts(id: Seq<char>)
    ensures
        ends_in_part(id, text::last_segment(id)),
        text_laws::is_plain(text::last_segment(id)),
        text::last_segment(id) != id ==> exists|head: Seq<char>|
            id == #[trigger] (head + seq![':'] + text::last_segment(id)),
    decreases id.len(),
{
    let part = text::last_segment(id);
    if id.len() == 0 {
        assert(id =~= part);
    } else if id.last() == ':' {
        assert(id =~= id.drop_last() + seq![':'] + part);
    } else {
        let rest = id.drop_last();
        let less = text::last_segment(rest);
        segments_are_parts(rest);
        if less == rest {
            assert(part =~= id);
        } else {
            let head = choose|head: Seq<char>| rest == #[trigger] (head + seq![':'] + less);
            let front = head + seq![':'];
            assert(id =~= rest.push(id.last()));
            assert((front + less).push(id.last()) =~= front + less.push(id.last()));
            assert(id == front + part);
        }
    }
}

proof fn parts_are_segments(id: Seq<char>, part: Seq<char>)
    requires
        text_laws::is_plain(part),
    ensures
        text::last_segment(id) == part <==> ends_in_part(id, part),
{
    segments_are_parts(id);
    if id == part {
        text_laws::last_segment_follows_the_last_colon(seq![], part);
    }
    if exists|head: Seq<char>| id == #[trigger] (head + seq![':'] + part) {
        let head = choose|head: Seq<char>| id == #[trigger] (head + seq![':'] + part);
        text_laws::last_segment_follows_the_last_colon(head, part);
    }
}

/// The law of what references mean: one whose last part that is not empty is the given one means
/// the stops of the schedule whose identifiers end in that part, in the order of texts.
pub proof fn references_mean_what_ends_alike(
    by_suffix: Map<Seq<char>, Vec<String>>,
    schedule: Gtfs,
    head: Seq<char>,
    part: Seq<char>,
    colons: nat,
    id: Seq<char>,
    i: int,
    j: int,
)
    requires
        lists::is_index_by(by_suffix, schedule.stops@.dom(), stops::by_suffix()),
        text_laws::is_plain(part),
        part.len() > 0,
    ensures
        ({
            let reference = head + seq![':'] + part + text_laws::copies(seq![':'], colons);
            let meant = stops::meant_stops(by_suffix, reference);
            &&& meant.contains(id) <==> schedule.stops@.contains_key(id) && ends_in_part(id, part)
            &&& 0 <= i < j < meant.len() ==> text::text_less(meant[i], meant[j])
            &&& stops::meant_stops(by_suffix, part + text_laws::copies(seq![':'], colons)) == meant
            &&& stops::meant_stops(by_suffix, text_laws::copies(seq![':'], colons)).len() == 0
        }),
{
    let reference = head + seq![':'] + part + text_laws::copies(seq![':'], colons);
    text_laws::reference_suffix_is_the_last_part(head, part, colons);
    stops::references_mean_their_suffix(by_suffix, schedule.stops@.dom(), reference);
    parts_are_segments(id, part);
}

/// The law of routes: the trips of a route are listed in the order of texts, each that is of it and
/// no other.
pub proof fn trips_are_listed_by_route(
    index: GtfsMatchIndex,
    schedule: Gtfs,
    route: Seq<char>,
    id: Seq<char>,
    i: int,
    j: int,
)
    requires
        matching::is_index_of(index, schedule),
    ensures
        lists::list_at(index.trips_by_route@, route).contains(id)
            <==> schedule.trips@.contains_key(id) && schedule.trips@[id].route_id@ == route,
        0 <= i < j < lists::list_at(index.trips_by_route@, route).len() ==> text::text_less(
            lists::list_at(index.trips_by_route@, route)[i],
            lists::list_at(index.trips_by_route@, route)[j],
        ),
{
    let listed = lists::list_at(index.trips_by_route@, route);
    if 0 <= i < j < listed.len() {
        assert(text::text_less(listed[i], listed[j]));
    }
}

/// Whether the first text in which two lists differ comes first in the first list, or that list ends
/// before there is one.
pub open spec fn comes_first_in(
    a: Seq<Seq<char>>,
    b: Seq<Seq<char>>,
    at: int,
) -> bool {
    &&& 0 <= at <= a.len()
    &&& at < b.len()
    &&& forall|i: int| 0 <= i < at ==> #[trigger] a[i] == b[i]
    &&& at < a.len() ==> text::text_less(a[at], b[at])
}

proof fn lists_differ_somewhere(a: Seq<Seq<char>>, b: Seq<Seq<char>>) -> (at: int)
    requires
        order::list_less(a, b),
    ensures
        comes_first_in(a, b, at),
    decreases a.len(),
{
    if a.len() > 0 && a[0] == b[0] {
        let x = a.drop_first();
        let y = b.drop_first();
        let at = lists_differ_somewhere(x, y) + 1;
        assert forall|i: int| 0 <= i < at implies #[trigger] a[i] == b[i] by {
            if i > 0 {
                assert(x[i - 1] == y[i - 1]);
            }
        }
        if at < a.len() {
            assert(x[at - 1] == a[at] && y[at - 1] == b[at]);
        }
        at
    } else {
        0
    }
}

/// The law of directions: the patterns of a route stand in the order of their destinations, and
/// those of one destination in the order of their stops, from the first on.
pub proof fn patterns_stand_in_order(
    index: GtfsMatchIndex,
    schedule: Gtfs,
    route: Seq<char>,
    i: int,
    j: int,
)
    requires
        matching::is_index_of(index, schedule),
        0 <= i < j < directions::patterns_at(index.directions@, route).len(),
    ensures
        ({
            let patterns = directions::patterns_at(index.directions@, route);
            ||| text::text_less(patterns[i].destination, patterns[j].destination)
            ||| patterns[i].destination == patterns[j].destination && exists|at: int| #[trigger]
                comes_first_in(patterns[i].stops, patterns[j].stops, at)
        }),
{
    let patterns = directions::patterns_at(index.directions@, route);
    assert(directions::pattern_less(patterns[i], patterns[j]));
    if !text::text_less(patterns[i].destination, patterns[j].destination) {
        let at = lists_differ_somewhere(patterns[i].stops, patterns[j].stops);
        assert(comes_first_in(patterns[i].stops, patterns[j].stops, at));
    }
}

/// The law of directions: their number grows with each route by that of its patterns.
pub proof fn directions_are_counted_by_route(
    all: Map<Seq<char>, Vec<DirectionPattern>>,
    routes: Seq<Seq<char>>,
    route: Seq<char>,
)
    ensures
        directions::pattern_total(all, seq![]) == 0,
        all.contains_key(route) ==> directions::pattern_total(all, routes.push(route))
            == directions::pattern_total(all, routes) + all[route]@.len(),
        !all.contains_key(route) ==> directions::pattern_total(all, routes.push(route))
            == directions::pattern_total(all, routes),
{
    assert(routes.push(route).drop_last() =~= routes);
}

/// The law of key files: each line that is not blank gives its text without the white space around
/// it, in order; a blank one gives nothing.
pub proof fn lines_give_their_keys(
    lines: Seq<Seq<char>>,
    before: Seq<char>,
    key: Seq<char>,
    after: Seq<char>,
)
    requires
        text_laws::are_blank(before),
        text_laws::are_blank(after),
        key.len() > 0 ==> !text_laws::is_blank(key[0]) && !text_laws::is_blank(key.last()),
    ensures
        key.len() > 0 ==> keys::keys_of(lines.push(before + key + after)) == keys::keys_of(
            lines,
        ).push(key),
        key.len() == 0 ==> keys::keys_of(lines.push(before + key + after)) == keys::keys_of(lines),
        keys::keys_of(seq![]).len() == 0,
{
    text_laws::trimming_takes_blanks_away(before, key, after);
    assert(lines.push(before + key + after).drop_last() =~= lines);
}

} // verus!
