use bus_timetable::date::{Date, TimeOfDay};
use bus_timetable::dedup::name_key_of;
use bus_timetable::service::{ServicePattern, WeekdayFlags};
use bus_timetable::text::remove_all;
use bus_timetable::timetable::{name_less, Stop, StopTime, Timetable, Trip};

fn day(y: i32, m: u32, d: u32) -> Date {
    Date::from_ymd(y, m, d).expect("a real date")
}

fn stop(id: &str, name: Option<&str>) -> Stop {
    Stop { id: id.to_string(), name: name.map(|n| n.to_string()) }
}

fn visit(stop_id: &str, name: &str, seconds: u32) -> StopTime {
    StopTime {
        time: TimeOfDay::from_seconds(seconds).unwrap(),
        stop_id: stop_id.to_string(),
        name: name.to_string(),
    }
}

fn trip(id: &str, service: &str, stop_times: Vec<StopTime>) -> Trip {
    Trip { id: id.to_string(), service_id: service.to_string(), route_id: "R".to_string(), stop_times }
}

fn timetable(stops: Vec<Stop>, trips: Vec<Trip>) -> Timetable {
    let mut tt = Timetable::new_on(day(2024, 6, 3), TimeOfDay::from_seconds(0).unwrap());
    tt.stops = stops;
    tt.trips = trips;
    tt
}

fn names(tt: &Timetable) -> Vec<Option<String>> {
    tt.stops.iter().map(|s| s.name.clone()).collect()
}

fn visit_names(tt: &Timetable) -> Vec<Vec<String>> {
    tt.trips.iter().map(|t| t.stop_times.iter().map(|s| s.name.clone()).collect()).collect()
}

#[test]
fn keys_fold_diacritics_and_case() {
    assert_eq!(name_key_of(&"Étoile".to_string()), "etoile");
    assert_eq!(name_key_of(&"ETOILE".to_string()), "etoile");
    assert_eq!(name_key_of(&"Gare de l'Est".to_string()), "gare de l'est");
    assert_eq!(name_key_of(&String::new()), "");
}

#[test]
fn accented_name_wins_and_reaches_visits() {
    let mut tt = timetable(
        vec![stop("A", Some("Étoile")), stop("B", Some("Etoile"))],
        vec![trip("T1", "S", vec![visit("B", "Etoile", 100), visit("C", "Etoile", 200)])],
    );
    tt.deduplicate_stops();
    assert_eq!(names(&tt), vec![Some("Étoile".to_string()), Some("Étoile".to_string())]);
    assert_eq!(visit_names(&tt), vec![vec!["Étoile".to_string(), "Etoile".to_string()]]);
    assert_eq!(tt.stops[1].id, "B");
}

#[test]
fn shorter_first_stop_takes_longer_name() {
    let mut tt = timetable(
        vec![stop("B", Some("Etoile")), stop("A", Some("Étoile"))],
        vec![trip("T1", "S", vec![visit("B", "Etoile", 100)]), trip("T2", "S", vec![visit("A", "Étoile", 5)])],
    );
    tt.uniformise_stop_names();
    assert_eq!(names(&tt), vec![Some("Étoile".to_string()), Some("Étoile".to_string())]);
    assert_eq!(visit_names(&tt), vec![vec!["Étoile".to_string()], vec!["Étoile".to_string()]]);
}

#[test]
fn equal_lengths_first_takes_second_name() {
    let mut tt = timetable(vec![stop("A", Some("ETOILE")), stop("B", Some("etoile"))], vec![]);
    tt.uniformise_stop_names();
    assert_eq!(names(&tt), vec![Some("etoile".to_string()), Some("etoile".to_string())]);
}

#[test]
fn different_names_and_unnamed_stops_are_left_alone() {
    let mut tt = timetable(
        vec![stop("A", Some("Nation")), stop("B", Some("Bastille")), stop("C", None), stop("D", Some("Nation"))],
        vec![],
    );
    tt.uniformise_stop_names();
    assert_eq!(
        names(&tt),
        vec![Some("Nation".to_string()), Some("Bastille".to_string()), None, Some("Nation".to_string())]
    );
}

#[test]
fn stop_already_paired_is_not_taken_again() {
    // A finds both B and C; neither B nor C can then take a partner, since
    // every other stop is already part of a pair.
    let mut tt = timetable(
        vec![stop("A", Some("Etoile")), stop("B", Some("Étoile")), stop("C", Some("ÉTOILE"))],
        vec![],
    );
    tt.uniformise_stop_names();
    // Pairs found: (A, B), (A, C). A takes "Étoile"; then A's "Étoile" and
    // C's "ÉTOILE" have seven bytes each, so A takes "ÉTOILE".
    assert_eq!(
        names(&tt),
        vec![Some("ÉTOILE".to_string()), Some("Étoile".to_string()), Some("ÉTOILE".to_string())]
    );
}

#[test]
fn unification_with_given_keys() {
    let mut tt = timetable(
        vec![stop("A", Some("x")), stop("B", Some("yy")), stop("C", Some("z"))],
        vec![trip("T", "S", vec![visit("A", "x", 1), visit("C", "z", 2)])],
    );
    let keys = vec!["k".to_string(), "k".to_string(), "other".to_string()];
    tt.uniformise_with_keys(&keys);
    assert_eq!(names(&tt), vec![Some("yy".to_string()), Some("yy".to_string()), Some("z".to_string())]);
    assert_eq!(visit_names(&tt), vec![vec!["yy".to_string(), "z".to_string()]]);
}

#[test]
fn second_pass_renames_nothing() {
    let mut tt = timetable(
        vec![
            stop("A", Some("Étoile")),
            stop("B", Some("Etoile")),
            stop("C", Some("Gare de l'Est")),
            stop("D", Some("GARE DE L'EST")),
            stop("E", Some("Opéra")),
        ],
        vec![trip("T", "S", vec![visit("B", "Etoile", 1), visit("D", "GARE DE L'EST", 2)])],
    );
    tt.uniformise_stop_names();
    let once = (names(&tt), visit_names(&tt));
    assert_eq!(once.0[1], Some("Étoile".to_string()));
    assert_eq!(once.0[2], Some("GARE DE L'EST".to_string()));
    tt.uniformise_stop_names();
    assert_eq!((names(&tt), visit_names(&tt)), once);
}

#[test]
fn running_today_sorted_by_first_departure_stably() {
    let mut tt = timetable(
        vec![],
        vec![
            trip("late", "S1", vec![visit("A", "a", 9000)]),
            trip("off", "S2", vec![visit("A", "a", 100)]),
            trip("early", "S1", vec![visit("A", "a", 3000), visit("B", "b", 10)]),
            trip("empty", "S1", vec![]),
            trip("tie", "S1", vec![visit("A", "a", 9000)]),
        ],
    );
    let mut weekdays = WeekdayFlags::never();
    for d in 0..5 {
        weekdays.set(d, true);
    }
    tt.calendar.patterns.push(ServicePattern {
        service_id: "S1".to_string(),
        weekdays,
        start_date: day(2024, 1, 1),
        end_date: day(2024, 12, 31),
    });
    assert_eq!(tt.running_today(), vec![2, 0, 4]);
}

#[test]
fn served_stops_are_sorted_and_unique() {
    let tt = timetable(
        vec![],
        vec![
            trip("T1", "S", vec![visit("A", "Nation", 1), visit("B", "Bastille", 2)]),
            trip("T2", "S", vec![visit("A", "Nation", 3), visit("C", "Étoile", 4), visit("D", "Zoo", 5)]),
        ],
    );
    assert_eq!(tt.served_stops_today(), vec!["Bastille", "Nation", "Zoo", "Étoile"]);
}

#[test]
fn names_compare_by_bytes() {
    assert!(name_less(&"Bastille".to_string(), &"Nation".to_string()));
    assert!(name_less(&"Nat".to_string(), &"Nation".to_string()));
    assert!(!name_less(&"Nation".to_string(), &"Nation".to_string()));
    assert!(name_less(&"Zoo".to_string(), &"Étoile".to_string()));
}

#[test]
fn new_timetable_is_empty() {
    let tt = Timetable::new();
    assert!(tt.trips.is_empty() && tt.stops.is_empty());
    assert!(tt.today.weekday < 7 && tt.current_time.seconds < 86400);
    assert_eq!(Date::from_ymd(tt.today.year, tt.today.month, tt.today.day), Some(tt.today));
}

#[test]
fn id_prefixes_are_removed_everywhere() {
    let text = b"(id: \"IDFM:C02298\", stop: \"IDFM:TRANSDEV_MARNE_LA_VALLEE:42\", IDFMIDFM:x)";
    let once = remove_all(text, b"IDFM:TRANSDEV_MARNE_LA_VALLEE:");
    assert_eq!(once, b"(id: \"IDFM:C02298\", stop: \"42\", IDFMIDFM:x)".to_vec());
    let twice = remove_all(&once, b"IDFM:");
    assert_eq!(twice, b"(id: \"C02298\", stop: \"42\", IDFMx)".to_vec());
    assert_eq!(remove_all(b"aaa", b"aa"), b"a".to_vec());
    assert_eq!(remove_all(b"abc", b""), b"abc".to_vec());
    assert_eq!(remove_all(b"", b"x"), Vec::<u8>::new());
}

#[test]
fn three_spellings_may_change_again_on_second_pass() {
    let mut tt = timetable(
        vec![stop("A", Some("Etoile")), stop("B", Some("Étoile")), stop("C", Some("ÉTOILE"))],
        vec![],
    );
    tt.uniformise_stop_names();
    tt.uniformise_stop_names();
    assert_eq!(
        names(&tt),
        vec![Some("Étoile".to_string()), Some("ÉTOILE".to_string()), Some("ÉTOILE".to_string())]
    );
}
