use bus_timetable::date::{Date, TimeOfDay};
use bus_timetable::extract::FeedCalendar;
use bus_timetable::service::{
    ExceptionKind, ServiceCalendar, ServiceException, ServicePattern, ServiceResolver, WeekdayFlags,
};

fn day(y: i32, m: u32, d: u32) -> Date {
    Date::from_ymd(y, m, d).expect("a real date")
}

fn weekday_calendar(id: &str, days: [bool; 7], start: Date, end: Date) -> FeedCalendar {
    FeedCalendar {
        service_id: id.to_string(),
        monday: days[0],
        tuesday: days[1],
        wednesday: days[2],
        thursday: days[3],
        friday: days[4],
        saturday: days[5],
        sunday: days[6],
        start_date: start,
        end_date: end,
    }
}

fn calendar_with(patterns: Vec<ServicePattern>, exceptions: Vec<(&str, Date, ExceptionKind)>) -> ServiceCalendar {
    let mut cal = ServiceCalendar::new();
    cal.patterns = patterns;
    for (id, date, kind) in exceptions {
        cal.exceptions.insert(id.to_string(), ServiceException { date, exception_type: kind });
    }
    cal
}

fn weekdays_2024(id: &str) -> ServicePattern {
    ServicePattern::from_calendar(&weekday_calendar(
        id,
        [true, true, true, true, true, false, false],
        day(2024, 1, 1),
        day(2024, 12, 31),
    ))
}

#[test]
fn dates_know_their_weekday() {
    assert_eq!(day(2024, 6, 3).weekday, 0);
    assert_eq!(day(2024, 6, 8).weekday, 5);
    assert_eq!(day(2024, 7, 14).weekday, 6);
    assert_eq!(day(2024, 2, 29).weekday, 3);
    assert!(Date::from_ymd(2023, 2, 29).is_none());
    assert!(Date::from_ymd(2024, 13, 1).is_none());
    assert!(Date::from_ymd(2024, 4, 31).is_none());
}

#[test]
fn dates_compare_chronologically() {
    assert!(day(2023, 12, 31).is_on_or_before(&day(2024, 1, 1)));
    assert!(day(2024, 1, 1).is_on_or_before(&day(2024, 1, 1)));
    assert!(!day(2024, 2, 1).is_on_or_before(&day(2024, 1, 31)));
}

#[test]
fn times_of_day_stop_at_midnight() {
    assert_eq!(TimeOfDay::from_seconds(86399).map(|t| t.seconds), Some(86399));
    assert!(TimeOfDay::from_seconds(86400).is_none());
    let t = TimeOfDay::from_seconds(8 * 3600 + 5 * 60 + 9).unwrap();
    assert_eq!((t.hour(), t.minute()), (8, 5));
}

#[test]
fn weekday_flags_set_and_clear() {
    let mut flags = WeekdayFlags::never();
    assert!((0..7).all(|d| !flags.contains(d)));
    flags.set(2, true);
    flags.set(6, true);
    assert!(flags.contains(2) && flags.contains(6) && !flags.contains(0));
    flags.set(2, false);
    assert!(!flags.contains(2) && flags.contains(6));
    assert!(!flags.contains(7));
}

#[test]
fn weekday_service_runs_on_monday_not_saturday() {
    let cal = calendar_with(vec![weekdays_2024("S1")], vec![]);
    let s1 = "S1".to_string();
    assert!(cal.is_active(&s1, &day(2024, 6, 3)));
    assert!(!cal.is_active(&s1, &day(2024, 6, 8)));
}

#[test]
fn never_pattern_runs_only_on_added_date() {
    let never = ServicePattern {
        service_id: "S2".to_string(),
        weekdays: WeekdayFlags::never(),
        start_date: day(2024, 1, 1),
        end_date: day(2024, 12, 31),
    };
    let cal = calendar_with(vec![never], vec![("S2", day(2024, 7, 14), ExceptionKind::Added)]);
    let s2 = "S2".to_string();
    assert!(cal.is_active(&s2, &day(2024, 7, 14)));
    assert!(!cal.is_active(&s2, &day(2024, 7, 15)));
}

#[test]
fn outside_window_is_inactive_whatever_the_weekday() {
    let cal = calendar_with(vec![weekdays_2024("S1")], vec![]);
    let s1 = "S1".to_string();
    assert!(!cal.is_active(&s1, &day(2023, 12, 29)));
    assert!(!cal.is_active(&s1, &day(2025, 1, 1)));
    assert!(cal.is_active(&s1, &day(2024, 1, 1)));
    assert!(cal.is_active(&s1, &day(2024, 12, 31)));
}

#[test]
fn deleted_exception_wins_over_pattern() {
    let cal = calendar_with(
        vec![weekdays_2024("S1")],
        vec![("S1", day(2024, 6, 3), ExceptionKind::Deleted)],
    );
    let s1 = "S1".to_string();
    assert!(!cal.is_active(&s1, &day(2024, 6, 3)));
    assert!(cal.is_active(&s1, &day(2024, 6, 4)));
}

#[test]
fn deleted_exception_wins_over_added_on_same_date() {
    let cal = calendar_with(
        vec![],
        vec![
            ("S1", day(2024, 6, 3), ExceptionKind::Added),
            ("S1", day(2024, 6, 3), ExceptionKind::Deleted),
        ],
    );
    assert!(!cal.is_active(&"S1".to_string(), &day(2024, 6, 3)));
}

#[test]
fn added_exception_outside_window_and_weekdays() {
    let cal = calendar_with(
        vec![weekdays_2024("S1")],
        vec![
            ("S1", day(2025, 3, 1), ExceptionKind::Added),
            ("S1", day(2024, 6, 8), ExceptionKind::Added),
        ],
    );
    let s1 = "S1".to_string();
    assert!(cal.is_active(&s1, &day(2025, 3, 1)));
    assert!(cal.is_active(&s1, &day(2024, 6, 8)));
}

#[test]
fn unknown_service_is_inactive() {
    let cal = calendar_with(vec![weekdays_2024("S1")], vec![]);
    assert!(!cal.is_active(&"nope".to_string(), &day(2024, 6, 3)));
}

#[test]
fn first_pattern_of_a_service_is_used() {
    let weekend = ServicePattern::from_calendar(&weekday_calendar(
        "S1",
        [false, false, false, false, false, true, true],
        day(2024, 1, 1),
        day(2024, 12, 31),
    ));
    let cal = calendar_with(vec![weekdays_2024("S1"), weekend], vec![]);
    let s1 = "S1".to_string();
    assert!(cal.is_active(&s1, &day(2024, 6, 3)));
    assert!(!cal.is_active(&s1, &day(2024, 6, 8)));
}

#[test]
fn resolver_answers_from_its_cache_consistently() {
    let cal = calendar_with(
        vec![weekdays_2024("S1")],
        vec![("S2", day(2024, 6, 3), ExceptionKind::Added)],
    );
    let mut resolver = ServiceResolver::new(day(2024, 6, 3));
    let (s1, s2, s3) = ("S1".to_string(), "S2".to_string(), "S3".to_string());
    for _ in 0..2 {
        assert!(resolver.is_active(&cal, &s1));
        assert!(resolver.is_active(&cal, &s2));
        assert!(!resolver.is_active(&cal, &s3));
    }
    assert_eq!(resolver.resolved_date(), day(2024, 6, 3));
}
