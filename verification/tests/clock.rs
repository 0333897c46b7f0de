use idfm_realtime::adaptive_matching;
use idfm_realtime::clock::{
    minimum_time_difference, scheduled_timestamps, service_days, signed_time_difference,
    DEFAULT_ZONE, EPOCH_DAY, FIRST_DAY, LAST_DAY,
};
use idfm_realtime::gtfs::{Agency, Calendar, CalendarDate, Exception, Gtfs, Route};
use idfm_realtime::matching::{candidate_service_dates, read_stamp, GtfsMatchIndex};
use idfm_realtime::processor::start_date;
use idfm_realtime::scoring::ObservedCall;
use idfm_realtime::services::find_first_zone;

const MONDAY: i32 = 739_810;

fn agency(id: &str, timezone: &str) -> Agency {
    Agency {
        id: Some(id.to_string()),
        timezone: timezone.to_string(),
    }
}

fn seen_at(moment: i64) -> ObservedCall {
    ObservedCall {
        stop_aliases: vec!["A".to_string()],
        aimed_arrival: Some(moment),
        aimed_departure: None,
        expected_arrival: None,
        expected_departure: None,
    }
}

#[test]
fn timestamps_are_read_by_rfc_3339() {
    let read = |text: &str| read_stamp(&Some(text.to_string()));
    assert_eq!(read("2026-07-12T10:00:00+02:00"), Some(1_783_843_200));
    assert_eq!(read("2026-07-12T08:00:00Z"), Some(1_783_843_200));
    assert_eq!(read("1970-01-01T00:00:01.900Z"), Some(1));
    assert_eq!(read("2026-07-12 at ten"), None);
    assert_eq!(read_stamp(&None), None);
}

#[test]
fn days_are_written_in_digits() {
    assert_eq!(start_date(Some(MONDAY)), Some("20260713".to_string()));
    assert_eq!(start_date(Some(EPOCH_DAY)), Some("19700101".to_string()));
    assert_eq!(start_date(Some(LAST_DAY)), Some("+2621421231".to_string()));
    assert_eq!(start_date(Some(i32::MAX)), None);
    assert_eq!(start_date(None), None);
}

#[test]
fn service_days_stay_in_the_calendar() {
    assert_eq!(service_days(MONDAY), vec![MONDAY, MONDAY - 1, MONDAY - 2]);
    assert_eq!(service_days(FIRST_DAY), vec![FIRST_DAY]);
    assert_eq!(service_days(FIRST_DAY + 1), vec![FIRST_DAY + 1, FIRST_DAY]);
    assert_eq!(service_days(FIRST_DAY - 1), Vec::<i32>::new());
    assert_eq!(service_days(LAST_DAY + 1), Vec::<i32>::new());
}

#[test]
fn scheduled_times_follow_the_clocks_of_the_zone() {
    assert_eq!(scheduled_timestamps(MONDAY, 8 * 3600, DEFAULT_ZONE), vec![1_783_922_400]);
    assert_eq!(
        scheduled_timestamps(MONDAY, 24 * 3600 + 1800, DEFAULT_ZONE),
        vec![1_783_981_800]
    );
    assert_eq!(
        scheduled_timestamps(739_914, 2 * 3600 + 1800, DEFAULT_ZONE),
        vec![1_792_888_200, 1_792_891_800]
    );
    assert_eq!(
        scheduled_timestamps(739_704, 2 * 3600 + 1800, DEFAULT_ZONE),
        Vec::<i64>::new()
    );
    assert_eq!(scheduled_timestamps(LAST_DAY, 86_400, DEFAULT_ZONE), Vec::<i64>::new());
    assert_eq!(scheduled_timestamps(MONDAY, 0, "Nowhere"), Vec::<i64>::new());
    assert_eq!(scheduled_timestamps(EPOCH_DAY, 5, "UTC"), vec![5]);
}

#[test]
fn differences_are_taken_from_the_nearest_time() {
    let half_past_two = 2 * 3600 + 1800;
    assert_eq!(
        minimum_time_difference(1_792_891_700, 739_914, half_past_two, DEFAULT_ZONE),
        Some(100)
    );
    assert_eq!(
        signed_time_difference(1_792_891_700, 739_914, half_past_two, DEFAULT_ZONE),
        Some(-100)
    );
    assert_eq!(
        signed_time_difference(1_792_890_000, 739_914, half_past_two, DEFAULT_ZONE),
        Some(1800)
    );
    assert_eq!(minimum_time_difference(0, 739_704, half_past_two, DEFAULT_ZONE), None);
    assert_eq!(signed_time_difference(0, 739_704, half_past_two, DEFAULT_ZONE), None);
}

#[test]
fn the_local_day_decides_the_service_days() {
    let just_after_midnight = 1_783_981_800;
    assert_eq!(
        candidate_service_dates(&vec![seen_at(just_after_midnight)], DEFAULT_ZONE),
        Some(vec![MONDAY + 1, MONDAY, MONDAY - 1])
    );
    assert_eq!(
        candidate_service_dates(&vec![seen_at(just_after_midnight)], "UTC"),
        Some(vec![MONDAY, MONDAY - 1, MONDAY - 2])
    );
    assert_eq!(
        candidate_service_dates(
            &vec![seen_at(just_after_midnight + 86_400), seen_at(just_after_midnight)],
            "UTC"
        ),
        Some(vec![MONDAY, MONDAY - 1, MONDAY - 2])
    );
    assert_eq!(candidate_service_dates(&Vec::new(), DEFAULT_ZONE), None);
    assert_eq!(candidate_service_dates(&vec![seen_at(0)], "Nowhere"), None);
}

#[test]
fn without_calls_the_days_are_those_of_today() {
    let days = adaptive_matching::candidate_service_dates(&Vec::new(), DEFAULT_ZONE);
    assert_eq!(days.len(), 3);
    assert!(days[0] > MONDAY - 1000);
    assert_eq!(days[1], days[0] - 1);
    assert_eq!(days[2], days[0] - 2);
}

#[test]
fn zones_are_known_by_name() {
    assert_eq!(
        find_first_zone(&vec![agency("a", "Mars/Olympus"), agency("b", "Europe/London")]),
        "Europe/London"
    );
    assert_eq!(find_first_zone(&vec![agency("a", "")]), "Europe/Paris");
    assert_eq!(find_first_zone(&Vec::new()), "Europe/Paris");
}

#[test]
fn routes_have_the_zone_of_their_agency() {
    let mut gtfs = Gtfs::new();
    gtfs.agencies = vec![
        agency("x", "Mars/Olympus"),
        agency("a", "Europe/London"),
        agency("b", "Europe/Madrid"),
        agency("b", "Europe/Rome"),
    ];
    for (route, of) in [("r1", Some("b")), ("r2", Some("x")), ("r3", None)] {
        gtfs.routes.insert(
            route.to_string(),
            Route {
                agency_id: of.map(str::to_string),
                route_type: "Bus".to_string(),
            },
        );
    }
    let index = GtfsMatchIndex::build(&gtfs);
    assert_eq!(index.timezone_for_route("r1"), "Europe/Rome");
    assert_eq!(index.timezone_for_route("r2"), "Europe/London");
    assert_eq!(index.timezone_for_route("r3"), "Europe/London");
    assert_eq!(index.timezone_for_route("r4"), "Europe/Paris");
    assert_eq!(adaptive_matching::timezone_for_route(&gtfs, "r1"), "Europe/Madrid");
    assert_eq!(adaptive_matching::timezone_for_route(&gtfs, "r2"), "Europe/Paris");
    assert_eq!(adaptive_matching::timezone_for_route(&gtfs, "r3"), "Europe/London");
    assert_eq!(adaptive_matching::timezone_for_route(&gtfs, "r4"), "Europe/London");
}

fn calendar(weekday: usize) -> Calendar {
    Calendar {
        start_date: MONDAY,
        end_date: MONDAY + 20,
        monday: weekday == 0,
        tuesday: weekday == 1,
        wednesday: weekday == 2,
        thursday: weekday == 3,
        friday: weekday == 4,
        saturday: weekday == 5,
        sunday: weekday == 6,
    }
}

#[test]
fn calendars_run_by_the_day_of_the_week() {
    for weekday in 0..7 {
        for day in 0..7 {
            assert_eq!(calendar(weekday).covers(MONDAY + day as i32), weekday == day);
        }
    }
    assert!(!calendar(0).covers(MONDAY - 7));
    assert!(!calendar(0).covers(MONDAY + 21));
    assert!(calendar(0).covers(MONDAY + 14));
}

#[test]
fn exceptions_stand_over_the_calendar() {
    let mut gtfs = Gtfs::new();
    gtfs.calendar.insert("s".to_string(), calendar(0));
    let exception = |date, exception_type| CalendarDate { date, exception_type };
    gtfs.calendar_dates.insert(
        "s".to_string(),
        vec![
            exception(MONDAY, Exception::Deleted),
            exception(MONDAY + 1, Exception::Added),
            exception(MONDAY + 2, Exception::Deleted),
            exception(MONDAY + 2, Exception::Added),
        ],
    );
    let index = GtfsMatchIndex::build(&gtfs);
    let strict = |day| index.service_runs_on(&gtfs, "s", day);
    let tolerant = |day| adaptive_matching::service_runs_on(&gtfs, "s", day);
    assert!(!strict(MONDAY) && !tolerant(MONDAY));
    assert!(strict(MONDAY + 1) && tolerant(MONDAY + 1));
    assert!(strict(MONDAY + 2) && !tolerant(MONDAY + 2));
    assert!(strict(MONDAY + 7) && tolerant(MONDAY + 7));
    assert!(!strict(MONDAY + 8) && !tolerant(MONDAY + 8));
    assert!(!index.service_runs_on(&gtfs, "other", MONDAY));
}
