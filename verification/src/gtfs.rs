//! The GTFS schedule.

use crate::clock::{self, weekday};
use crate::table::Table;
use vstd::prelude::*;

verus! {

/// A schedule: what a GTFS feed says of agencies, routes, trips, stops and service days.
pub struct Gtfs {
    pub agencies: Vec<Agency>,
    pub routes: Table<Route>,
    pub trips: Table<Trip>,
    pub stops: Table<Stop>,
    pub calendar: Table<Calendar>,
    pub calendar_dates: Table<Vec<CalendarDate>>,
}

#[derive(Debug, Clone)]
pub struct Agency {
    pub id: Option<String>,
    pub timezone: String,
}

#[derive(Debug, Clone)]
pub struct Route {
    pub agency_id: Option<String>,
    /// The name of the kind of vehicle, such as `Bus` or `Subway`.
    pub route_type: String,
}

#[derive(Debug, Clone)]
pub struct Stop {
    pub parent_station: Option<String>,
}

#[derive(Debug, Clone)]
pub struct Trip {
    pub id: String,
    pub service_id: String,
    pub route_id: String,
    pub stop_times: Vec<StopTime>,
    pub trip_short_name: Option<String>,
}

/// A stop of a trip. The times count seconds from the start of the service day.
#[derive(Debug, Clone)]
pub struct StopTime {
    pub stop_id: String,
    pub arrival_time: Option<u32>,
    pub departure_time: Option<u32>,
}

/// The weekdays on which a service runs, from `start_date` to `end_date`.
#[derive(Debug, Clone)]
pub struct Calendar {
    pub start_date: i32,
    pub end_date: i32,
    pub monday: bool,
    pub tuesday: bool,
    pub wednesday: bool,
    pub thursday: bool,
    pub friday: bool,
    pub saturday: bool,
    pub sunday: bool,
}

#[derive(Debug, Clone, Copy, PartialEq, Eq, Structural)]
pub enum Exception {
    Added,
    Deleted,
}

/// A day on which a service runs, or does not, against its calendar.
#[derive(Debug, Clone)]
pub struct CalendarDate {
    pub date: i32,
    pub exception_type: Exception,
}

/// The identifiers of the stops of a trip.
pub open spec fn trip_stops(trip: Trip) -> Seq<Seq<char>> {
    Seq::new(trip.stop_times@.len(), |i: int| trip.stop_times@[i].stop_id@)
}

/// The arrival at a stop, the departure where no arrival is given.
pub open spec fn due_at_arrival(stop: StopTime) -> Option<u32> {
    match stop.arrival_time {
        Some(seconds) => Some(seconds),
        None => stop.departure_time,
    }
}

/// The departure from a stop, the arrival where no departure is given.
pub open spec fn due_at_departure(stop: StopTime) -> Option<u32> {
    match stop.departure_time {
        Some(seconds) => Some(seconds),
        None => stop.arrival_time,
    }
}

impl Gtfs {
    /// A schedule with nothing in it.
    pub fn new() -> (r: Self)
        ensures
            r.agencies@.len() == 0,
            r.routes@ == Map::<Seq<char>, Route>::empty(),
            r.trips@ == Map::<Seq<char>, Trip>::empty(),
            r.stops@ == Map::<Seq<char>, Stop>::empty(),
            r.calendar@ == Map::<Seq<char>, Calendar>::empty(),
            r.calendar_dates@ == Map::<Seq<char>, Vec<CalendarDate>>::empty(),
            r.routes.keys() == Seq::<Seq<char>>::empty(),
            r.trips.keys() == Seq::<Seq<char>>::empty(),
            r.stops.keys() == Seq::<Seq<char>>::empty(),
            r.calendar.keys() == Seq::<Seq<char>>::empty(),
            r.calendar_dates.keys() == Seq::<Seq<char>>::empty(),
    {
        Gtfs {
            agencies: Vec::new(),
            routes: Table::new(),
            trips: Table::new(),
            stops: Table::new(),
            calendar: Table::new(),
            calendar_dates: Table::new(),
        }
    }
}

impl StopTime {
    /// The arrival at the stop, the departure where no arrival is given.
    pub fn arrival_or_departure(&self) -> (r: Option<u32>)
        ensures
            r == due_at_arrival(*self),
    {
        match self.arrival_time {
            Some(seconds) => Some(seconds),
            None => self.departure_time,
        }
    }

    /// The departure from the stop, the arrival where no departure is given.
    pub fn departure_or_arrival(&self) -> (r: Option<u32>)
        ensures
            r == due_at_departure(*self),
    {
        match self.departure_time {
            Some(seconds) => Some(seconds),
            None => self.arrival_time,
        }
    }
}

/// Whether a calendar has its service run on a weekday, counted from Monday as 0.
pub open spec fn calendar_has(calendar: Calendar, weekday: int) -> bool {
    ||| weekday == 0 && calendar.monday
    ||| weekday == 1 && calendar.tuesday
    ||| weekday == 2 && calendar.wednesday
    ||| weekday == 3 && calendar.thursday
    ||| weekday == 4 && calendar.friday
    ||| weekday == 5 && calendar.saturday
    ||| weekday == 6 && calendar.sunday
}

/// Whether a calendar has its service run on `day`.
pub open spec fn calendar_covers(calendar: Calendar, day: i32) -> bool {
    &&& clock::in_calendar(day as int)
    &&& calendar.start_date <= day <= calendar.end_date
    &&& calendar_has(calendar, clock::weekday_of(day as int))
}

impl Calendar {
    /// Whether the calendar has its service run on `day`.
    pub fn covers(&self, day: i32) -> (r: bool)
        ensures
            r == calendar_covers(*self, day),
    {
        if day < self.start_date || self.end_date < day {
            return false;
        }
        match weekday(day) {
            Some(0) => self.monday,
            Some(1) => self.tuesday,
            Some(2) => self.wednesday,
            Some(3) => self.thursday,
            Some(4) => self.friday,
            Some(5) => self.saturday,
            Some(_) => self.sunday,
            None => false,
        }
    }
}

} // verus!
