use bus_timetable::date::{Date, TimeOfDay};
use bus_timetable::extract::{
    journey_from_feed, ExtractError, Feed, FeedCalendar, FeedCalendarDate, FeedStopTime, FeedTrip,
    GtfsExtract, VisitError,
};
use bus_timetable::service::{ExceptionKind, ServicePattern, ServiceResolver};
use bus_timetable::timetable::{StopTime, Timetable, Trip};

fn day(y: i32, m: u32, d: u32) -> Date {
    Date::from_ymd(y, m, d).expect("a real date")
}

fn visit(stop: &str, name: Option<&str>, arrival: Option<u32>, departure: Option<u32>) -> FeedStopTime {
    FeedStopTime {
        stop_id: stop.to_string(),
        stop_name: name.map(|n| n.to_string()),
        arrival_time: arrival,
        departure_time: departure,
    }
}

fn trip(id: &str, route: &str, service: &str, stop_times: Vec<FeedStopTime>) -> FeedTrip {
    FeedTrip {
        id: id.to_string(),
        route_id: route.to_string(),
        service_id: service.to_string(),
        stop_times,
    }
}

fn calendar(id: &str, days: [bool; 7]) -> FeedCalendar {
    FeedCalendar {
        service_id: id.to_string(),
        monday: days[0],
        tuesday: days[1],
        wednesday: days[2],
        thursday: days[3],
        friday: days[4],
        saturday: days[5],
        sunday: days[6],
        start_date: day(2024, 1, 1),
        end_date: day(2024, 12, 31),
    }
}

const WEEKDAYS: [bool; 7] = [true, true, true, true, true, false, false];
const WEEKEND: [bool; 7] = [false, false, false, false, false, true, true];

fn sample_feed() -> Feed {
    Feed {
        trips: vec![
            trip("T1", "R", "S1", vec![
                visit("A", Some("Alpha"), Some(28800), Some(28860)),
                visit("B", Some("Beta"), Some(29400), None),
            ]),
            trip("T2", "R", "S2", vec![visit("A", Some("Alpha"), None, Some(25200))]),
            trip("T3", "Q", "S3", vec![visit("C", Some("Gamma"), None, Some(1000))]),
            trip("T4", "R", "S1", vec![
                visit("B", None, None, Some(100)),
                visit("A", Some("Alpha"), None, Some(27000)),
                visit("C", Some("Gamma"), None, None),
            ]),
            trip("T5", "R", "S4", vec![visit("C", Some("Gamma"), Some(30000), Some(30000))]),
        ],
        calendars: vec![calendar("S1", WEEKDAYS), calendar("S2", WEEKEND), calendar("S3", WEEKDAYS)],
        calendar_dates: vec![
            FeedCalendarDate { service_id: "S4".to_string(), date: day(2024, 6, 5), exception_type: ExceptionKind::Added },
            FeedCalendarDate { service_id: "S3".to_string(), date: day(2024, 6, 3), exception_type: ExceptionKind::Added },
            FeedCalendarDate { service_id: "S1".to_string(), date: day(2024, 6, 4), exception_type: ExceptionKind::Deleted },
        ],
    }
}

fn empty_timetable() -> Timetable {
    Timetable::new_on(day(2024, 6, 3), TimeOfDay::from_seconds(0).unwrap())
}

#[test]
fn stop_time_prefers_departure_then_arrival() {
    let v = StopTime::from_feed(&visit("A", Some("Alpha"), Some(10), Some(20))).unwrap();
    assert_eq!((v.time.seconds, v.stop_id.as_str(), v.name.as_str()), (20, "A", "Alpha"));
    let v = StopTime::from_feed(&visit("A", Some("Alpha"), Some(10), None)).unwrap();
    assert_eq!(v.time.seconds, 10);
}

#[test]
fn stop_time_errors() {
    assert_eq!(StopTime::from_feed(&visit("A", Some("Alpha"), None, None)).unwrap_err(), VisitError::NoTime);
    assert_eq!(
        StopTime::from_feed(&visit("A", Some("Alpha"), None, Some(86400))).unwrap_err(),
        VisitError::TimeOutOfRange
    );
    assert_eq!(StopTime::from_feed(&visit("A", None, None, Some(5))).unwrap_err(), VisitError::NoName);
}

#[test]
fn trip_keeps_usable_stop_times_in_order() {
    let t = Trip::from_feed(&trip("T", "R", "S", vec![
        visit("A", Some("Alpha"), None, Some(30)),
        visit("B", None, None, Some(40)),
        visit("C", Some("Gamma"), Some(50), None),
    ]));
    let ids: Vec<&str> = t.stop_times.iter().map(|s| s.stop_id.as_str()).collect();
    assert_eq!(ids, vec!["A", "C"]);
    assert_eq!((t.id.as_str(), t.route_id.as_str(), t.service_id.as_str()), ("T", "R", "S"));
}

#[test]
fn trip_without_usable_stop_time_is_no_journey() {
    assert!(journey_from_feed(&trip("T", "R", "S", vec![visit("B", None, None, Some(4))])).is_none());
    assert!(journey_from_feed(&trip("T", "R", "S", vec![])).is_none());
    assert!(journey_from_feed(&trip("T", "R", "S", vec![visit("B", Some("Beta"), None, Some(4))])).is_some());
}

#[test]
fn calendar_flags_become_pattern() {
    let p = ServicePattern::from_calendar(&calendar("S", [true, false, true, false, false, false, true]));
    let set: Vec<u8> = (0..7).filter(|d| p.weekdays.contains(*d)).collect();
    assert_eq!(set, vec![0, 2, 6]);
    assert_eq!(p.service_id, "S");
    assert_eq!((p.start_date, p.end_date), (day(2024, 1, 1), day(2024, 12, 31)));
}

#[test]
fn extraction_without_trips_for_route_fails() {
    let mut tt = empty_timetable();
    assert_eq!(tt.extract_route(&sample_feed(), &"NOPE".to_string()), Err(ExtractError::NoTrips));
    assert!(tt.trips.is_empty() && tt.stops.is_empty() && tt.calendar.patterns.is_empty());
}

#[test]
fn extraction_with_only_unusable_trips_fails() {
    let feed = Feed {
        trips: vec![trip("T", "R", "S", vec![visit("A", None, Some(3), None)])],
        calendars: vec![],
        calendar_dates: vec![],
    };
    let mut tt = empty_timetable();
    assert_eq!(tt.extract_gtfs_route(&feed, &"R".to_string()), Err(ExtractError::NoTrips));
}

#[test]
fn extraction_keeps_route_journeys_stops_and_calendar() {
    let mut tt = empty_timetable();
    assert_eq!(tt.extract_gtfs_route(&sample_feed(), &"R".to_string()), Ok(()));
    let ids: Vec<&str> = tt.trips.iter().map(|t| t.id.as_str()).collect();
    assert_eq!(ids, vec!["T1", "T2", "T4", "T5"]);
    assert_eq!(tt.trips[2].stop_times.len(), 1);
    let stops: Vec<(&str, Option<&str>)> =
        tt.stops.iter().map(|s| (s.id.as_str(), s.name.as_deref())).collect();
    assert_eq!(stops, vec![("A", Some("Alpha")), ("B", Some("Beta")), ("C", Some("Gamma"))]);
    let services: Vec<&str> = tt.calendar.patterns.iter().map(|p| p.service_id.as_str()).collect();
    assert_eq!(services, vec!["S1", "S2"]);
    assert!(tt.calendar.exceptions.get_vec("S3").is_none());
    assert_eq!(tt.calendar.exceptions.get_vec("S4").map(|v| v.len()), Some(1));
    assert_eq!(tt.calendar.exceptions.get_vec("S1").map(|v| v.len()), Some(1));
}

#[test]
fn extracted_feed_resolves_expected_services() {
    let mut tt = empty_timetable();
    tt.extract_route(&sample_feed(), &"R".to_string()).unwrap();
    let running = |date: Date| -> Vec<&str> {
        let mut resolver = ServiceResolver::new(date);
        ["S1", "S2", "S3", "S4"]
            .into_iter()
            .filter(|s| resolver.is_active(&tt.calendar, &s.to_string()))
            .collect()
    };
    assert_eq!(running(day(2024, 6, 3)), vec!["S1"]);
    assert_eq!(running(day(2024, 6, 4)), Vec::<&str>::new());
    assert_eq!(running(day(2024, 6, 5)), vec!["S1", "S4"]);
    assert_eq!(running(day(2024, 6, 8)), vec!["S2"]);
    assert_eq!(running(day(2025, 6, 2)), Vec::<&str>::new());
}
