//! Projection of a feed's records onto the timetable of one route.
use crate::date::{Date, TimeOfDay, SECONDS_PER_DAY};
use crate::service::{
    contains_id, has_exception_on, insert_exception, pattern_for, ExceptionKind, ServiceCalendar,
    ServiceException, ServicePattern, WeekdayFlags,
};
use crate::timetable::{stops_view, trips_view, Stop, StopTime, StopTimeView, StopView, Timetable, Trip, TripView};
use vstd::prelude::*;

verus! {

/// A stop time as the feed gives it.
pub struct FeedStopTime {
    pub stop_id: String,
    pub stop_name: Option<String>,
    pub arrival_time: Option<u32>,
    pub departure_time: Option<u32>,
}

/// A trip as the feed gives it, with its stop times in order.
pub struct FeedTrip {
    pub id: String,
    pub route_id: String,
    pub service_id: String,
    pub stop_times: Vec<FeedStopTime>,
}

/// The weekly calendar of a service as the feed gives it.
pub struct FeedCalendar {
    pub service_id: String,
    pub monday: bool,
    pub tuesday: bool,
    pub wednesday: bool,
    pub thursday: bool,
    pub friday: bool,
    pub saturday: bool,
    pub sunday: bool,
    pub start_date: Date,
    pub end_date: Date,
}

/// A dated exception of a service as the feed gives it.
pub struct FeedCalendarDate {
    pub service_id: String,
    pub date: Date,
    pub exception_type: ExceptionKind,
}

/// The records of a feed that a timetable is made from.
pub struct Feed {
    pub trips: Vec<FeedTrip>,
    pub calendars: Vec<FeedCalendar>,
    pub calendar_dates: Vec<FeedCalendarDate>,
}

/// Why a stop time of the feed cannot become a visit.
#[derive(Clone, Copy, Debug, PartialEq, Eq, Structural)]
pub enum VisitError {
    /// Neither a departure nor an arrival time.
    NoTime,
    /// The time is a full day or more after midnight.
    TimeOutOfRange,
    /// The stop has no name.
    NoName,
}

/// Why no timetable can be made for a route.
#[derive(Clone, Copy, Debug, PartialEq, Eq, Structural)]
pub enum ExtractError {
    /// No trip of the route has a usable stop time.
    NoTrips,
}

/// The time of a stop time: its departure, else its arrival.
pub open spec fn time_of(st: FeedStopTime) -> Option<u32> {
    match st.departure_time {
        Some(t) => Some(t),
        None => st.arrival_time,
    }
}

/// The visit a feed stop time becomes, or why it cannot.
pub open spec fn visit_of(st: FeedStopTime) -> Result<StopTimeView, VisitError> {
    match time_of(st) {
        None => Err(VisitError::NoTime),
        Some(t) => if t >= SECONDS_PER_DAY {
            Err(VisitError::TimeOutOfRange)
        } else {
            match st.stop_name {
                None => Err(VisitError::NoName),
                Some(n) => Ok(
                    StopTimeView { time: TimeOfDay { seconds: t }, stop_id: st.stop_id@, name: n@ },
                ),
            }
        },
    }
}

/// The visits made from the usable stop times, in order.
pub open spec fn visits_of(sts: Seq<FeedStopTime>) -> Seq<StopTimeView>
    decreases sts.len(),
{
    if sts.len() == 0 {
        Seq::empty()
    } else {
        let before = visits_of(sts.drop_last());
        match visit_of(sts.last()) {
            Ok(v) => before.push(v),
            Err(_) => before,
        }
    }
}

/// A feed trip with its usable stop times.
pub open spec fn trip_of(t: FeedTrip) -> TripView {
    TripView {
        id: t.id@,
        service_id: t.service_id@,
        route_id: t.route_id@,
        stop_times: visits_of(t.stop_times@),
    }
}

/// The journeys of route `route`: its trips, in feed order, that keep at
/// least one usable stop time.
pub open spec fn journeys_of(trips: Seq<FeedTrip>, route: Seq<char>) -> Seq<TripView>
    decreases trips.len(),
{
    if trips.len() == 0 {
        Seq::empty()
    } else {
        let before = journeys_of(trips.drop_last(), route);
        let t = trips.last();
        if t.route_id@ == route && trip_of(t).stop_times.len() > 0 {
            before.push(trip_of(t))
        } else {
            before
        }
    }
}

impl StopTime {
    /// The visit made from a feed stop time: its time is the departure time,
    /// else the arrival time, and must fall within the day; its stop must be
    /// named.
    pub fn from_feed(st: &FeedStopTime) -> (r: Result<StopTime, VisitError>)
        ensures
            match (r, visit_of(*st)) {
                (Ok(v), Ok(w)) => v@ == w,
                (Err(e), Err(f)) => e == f,
                _ => false,
            },
    {
        let seconds = match st.departure_time {
            Some(t) => t,
            None => match st.arrival_time {
                Some(t) => t,
                None => {
                    return Err(VisitError::NoTime);
                },
            },
        };
        let time = match TimeOfDay::from_seconds(seconds) {
            Some(time) => time,
            None => {
                return Err(VisitError::TimeOutOfRange);
            },
        };
        match &st.stop_name {
            Some(name) => Ok(StopTime { time, stop_id: st.stop_id.clone(), name: name.clone() }),
            None => Err(VisitError::NoName),
        }
    }
}

impl Trip {
    /// The trip made from a feed trip, keeping its usable stop times in order.
    pub fn from_feed(t: &FeedTrip) -> (r: Trip)
        ensures
            r@ == trip_of(*t),
    {
        let mut stop_times: Vec<StopTime> = Vec::new();
        let mut i: usize = 0;
        while i < t.stop_times.len()
            invariant
                i <= t.stop_times@.len(),
                stop_times@.map_values(|st: StopTime| st@) == visits_of(t.stop_times@.take(i as int)),
            decreases t.stop_times@.len() - i,
        {
            let ghost prefix = t.stop_times@.take(i as int + 1);
            assert(prefix.drop_last() =~= t.stop_times@.take(i as int));
            assert(prefix.last() == t.stop_times@[i as int]);
            match StopTime::from_feed(&t.stop_times[i]) {
                Ok(v) => {
                    stop_times.push(v);
                    assert(stop_times@.map_values(|st: StopTime| st@) =~= visits_of(prefix));
                },
                Err(_) => {},
            }
            i = i + 1;
        }
        assert(t.stop_times@.take(t.stop_times@.len() as int) =~= t.stop_times@);
        Trip {
            id: t.id.clone(),
            service_id: t.service_id.clone(),
            route_id: t.route_id.clone(),
            stop_times,
        }
    }
}

/// The journey made from a feed trip, or `None` when none of its stop times
/// is usable.
pub fn journey_from_feed(t: &FeedTrip) -> (r: Option<Trip>)
    ensures
        r is Some <==> trip_of(*t).stop_times.len() > 0,
        r matches Some(j) ==> j@ == trip_of(*t),
{
    let trip = Trip::from_feed(t);
    if trip.stop_times.len() == 0 {
        None
    } else {
        Some(trip)
    }
}

/// Weekday `d` (Monday is 0) is set in the calendar.
pub open spec fn calendar_has_day(c: FeedCalendar, d: int) -> bool {
    if d == 0 {
        c.monday
    } else if d == 1 {
        c.tuesday
    } else if d == 2 {
        c.wednesday
    } else if d == 3 {
        c.thursday
    } else if d == 4 {
        c.friday
    } else if d == 5 {
        c.saturday
    } else if d == 6 {
        c.sunday
    } else {
        false
    }
}

/// The pattern carries the calendar's service id, validity window and
/// weekdays.
pub open spec fn pattern_of_calendar(p: ServicePattern, c: FeedCalendar) -> bool {
    &&& p.service_id@ == c.service_id@
    &&& p.start_date == c.start_date
    &&& p.end_date == c.end_date
    &&& forall|d: int| #[trigger] p.weekdays.has(d) == calendar_has_day(c, d)
}

impl ServicePattern {
    /// The pattern of a feed calendar: its seven weekday flags folded into a
    /// set, and its validity window.
    pub fn from_calendar(c: &FeedCalendar) -> (r: ServicePattern)
        ensures
            pattern_of_calendar(r, *c),
    {
        let mut weekdays = WeekdayFlags::never();
        weekdays.set(0, c.monday);
        weekdays.set(1, c.tuesday);
        weekdays.set(2, c.wednesday);
        weekdays.set(3, c.thursday);
        weekdays.set(4, c.friday);
        weekdays.set(5, c.saturday);
        weekdays.set(6, c.sunday);
        ServicePattern {
            service_id: c.service_id.clone(),
            weekdays,
            start_date: c.start_date,
            end_date: c.end_date,
        }
    }
}

/// The service ids of the journeys, each once, in order of first use.
pub open spec fn service_ids_of(js: Seq<TripView>) -> Seq<Seq<char>>
    decreases js.len(),
{
    if js.len() == 0 {
        Seq::empty()
    } else {
        let before = service_ids_of(js.drop_last());
        if before.contains(js.last().service_id) {
            before
        } else {
            before.push(js.last().service_id)
        }
    }
}

/// The first calendar of service `sid`.
pub open spec fn first_calendar(cals: Seq<FeedCalendar>, sid: Seq<char>) -> Option<FeedCalendar>
    decreases cals.len(),
{
    if cals.len() == 0 {
        None
    } else if cals[0].service_id@ == sid {
        Some(cals[0])
    } else {
        first_calendar(cals.drop_first(), sid)
    }
}

/// The exceptions of service `sid`, in feed order.
pub open spec fn dates_of(cds: Seq<FeedCalendarDate>, sid: Seq<char>) -> Seq<ServiceException>
    decreases cds.len(),
{
    if cds.len() == 0 {
        Seq::empty()
    } else {
        let before = dates_of(cds.drop_last(), sid);
        let cd = cds.last();
        if cd.service_id@ == sid {
            before.push(ServiceException { date: cd.date, exception_type: cd.exception_type })
        } else {
            before
        }
    }
}

/// The calendar holds, for each of `services`, the pattern of its first
/// feed calendar (if any) and its feed exceptions, and nothing for any other
/// service.
pub open spec fn calendar_of_services(
    cal: ServiceCalendar,
    feed: Feed,
    services: Seq<Seq<char>>,
) -> bool {
    &&& forall|sid: Seq<char>| #[trigger]
        cal.exceptions_of(sid) == if services.contains(sid) {
            dates_of(feed.calendar_dates@, sid)
        } else {
            Seq::empty()
        }
    &&& forall|sid: Seq<char>| pattern_entry(#[trigger] pattern_for(cal.patterns@, sid), feed, services, sid)
}

/// The pattern stored for service `sid` is that of its first feed calendar
/// when `sid` is one of `services` and has a calendar; otherwise there is
/// none.
pub open spec fn pattern_entry(
    stored: Option<ServicePattern>,
    feed: Feed,
    services: Seq<Seq<char>>,
    sid: Seq<char>,
) -> bool {
    match (stored, first_calendar(feed.calendars@, sid)) {
        (Some(p), Some(c)) => services.contains(sid) && pattern_of_calendar(p, c),
        (Some(p), None) => false,
        (None, c) => !services.contains(sid) || c is None,
    }
}

proof fn lemma_pattern_for_push(ps: Seq<ServicePattern>, p: ServicePattern, sid: Seq<char>)
    ensures
        pattern_for(ps.push(p), sid) == match pattern_for(ps, sid) {
            Some(q) => Some(q),
            None => if p.service_id@ == sid {
                Some(p)
            } else {
                None
            },
        },
    decreases ps.len(),
{
    if ps.len() > 0 {
        assert(ps.push(p).drop_first() =~= ps.drop_first().push(p));
        assert(ps.push(p)[0] == ps[0]);
        lemma_pattern_for_push(ps.drop_first(), p, sid);
    } else {
        assert(ps.push(p).drop_first() =~= Seq::<ServicePattern>::empty());
        assert(ps.push(p)[0] == p);
        assert(pattern_for(ps.push(p).drop_first(), sid) is None);
    }
}

proof fn lemma_push_contains<T>(s: Seq<T>, v: T, x: T)
    ensures
        s.push(v).contains(x) <==> (s.contains(x) || x == v),
{
    if s.contains(x) {
        let k = choose|k: int| 0 <= k < s.len() && s[k] == x;
        assert(s.push(v)[k] == x);
    }
    if x == v {
        assert(s.push(v)[s.len() as int] == x);
    }
    if s.push(v).contains(x) {
        let k = choose|k: int| 0 <= k < s.push(v).len() && s.push(v)[k] == x;
        if k < s.len() {
            assert(s[k] == x);
        }
    }
}

/// The first calendar of service `sid` in the feed, if any.
fn find_calendar<'a>(cals: &'a Vec<FeedCalendar>, sid: &String) -> (r: Option<&'a FeedCalendar>)
    ensures
        r matches Some(c) ==> first_calendar(cals@, sid@) == Some(*c) && c.service_id@ == sid@,
        r is None ==> first_calendar(cals@, sid@) is None,
{
    let mut i: usize = 0;
    assert(cals@.subrange(0, cals@.len() as int) =~= cals@);
    while i < cals.len()
        invariant
            i <= cals@.len(),
            first_calendar(cals@, sid@) == first_calendar(
                cals@.subrange(i as int, cals@.len() as int),
                sid@,
            ),
        decreases cals@.len() - i,
    {
        let ghost rest = cals@.subrange(i as int, cals@.len() as int);
        assert(rest.drop_first() =~= cals@.subrange(i + 1, cals@.len() as int));
        if cals[i].service_id == *sid {
            return Some(&cals[i]);
        }
        i = i + 1;
    }
    None
}

/// Adds to the calendar the pattern and the exceptions that the feed gives
/// service `sid`.
fn add_service(cal: &mut ServiceCalendar, feed: &Feed, sid: &String, services: Ghost<Seq<Seq<char>>>)
    requires
        calendar_of_services(*old(cal), *feed, services@),
        !services@.contains(sid@),
    ensures
        calendar_of_services(*final(cal), *feed, services@.push(sid@)),
{
    let ghost old_patterns = cal.patterns@;
    let ghost services_after = services@.push(sid@);
    let found = find_calendar(&feed.calendars, sid);
    match found {
        Some(c) => {
            let p = ServicePattern::from_calendar(c);
            cal.patterns.push(p);
        },
        None => {},
    }
    assert forall|x: Seq<char>| pattern_entry(#[trigger] pattern_for(cal.patterns@, x), *feed, services_after, x) by {
        lemma_push_contains(services@, sid@, x);
        assert(pattern_entry(pattern_for(old_patterns, x), *feed, services@, x));
        match found {
            Some(c) => {
                lemma_pattern_for_push(old_patterns, cal.patterns@.last(), x);
                assert(old_patterns.push(cal.patterns@.last()) =~= cal.patterns@);
            },
            None => {},
        }
    }
    assert(cal.exceptions == old(cal).exceptions);
    assert forall|x: Seq<char>| #[trigger] cal.exceptions_of(x) == old(cal).exceptions_of(x) by {}
    assert(old(cal).exceptions_of(sid@) == Seq::<ServiceException>::empty());
    assert(feed.calendar_dates@.take(0) =~= Seq::<FeedCalendarDate>::empty());
    let mut i: usize = 0;
    while i < feed.calendar_dates.len()
        invariant
            i <= feed.calendar_dates@.len(),
            forall|x: Seq<char>| x != sid@ ==> #[trigger] cal.exceptions_of(x) == if services@.contains(x) {
                dates_of(feed.calendar_dates@, x)
            } else {
                Seq::empty()
            },
            cal.exceptions_of(sid@) == dates_of(feed.calendar_dates@.take(i as int), sid@),
            forall|x: Seq<char>| pattern_entry(#[trigger] pattern_for(cal.patterns@, x), *feed, services_after, x),
        decreases feed.calendar_dates@.len() - i,
    {
        let ghost prefix = feed.calendar_dates@.take(i as int + 1);
        assert(prefix.drop_last() =~= feed.calendar_dates@.take(i as int));
        assert(prefix.last() == feed.calendar_dates@[i as int]);
        if feed.calendar_dates[i].service_id == *sid {
            let e = ServiceException {
                date: feed.calendar_dates[i].date,
                exception_type: feed.calendar_dates[i].exception_type,
            };
            let ghost cal_before = *cal;
            insert_exception(&mut cal.exceptions, sid.clone(), e);
            assert forall|x: Seq<char>| x != sid@ implies #[trigger] cal.exceptions_of(x) == if services@.contains(x) {
                dates_of(feed.calendar_dates@, x)
            } else {
                Seq::empty()
            } by {
                assert(cal_before.exceptions_of(x) == if services@.contains(x) {
                    dates_of(feed.calendar_dates@, x)
                } else {
                    Seq::empty()
                });
            }
            assert(cal.exceptions_of(sid@) =~= cal_before.exceptions_of(sid@).push(e));
        }
        i = i + 1;
    }
    assert(feed.calendar_dates@.take(feed.calendar_dates@.len() as int) =~= feed.calendar_dates@);
    assert forall|x: Seq<char>| #[trigger] cal.exceptions_of(x) == if services_after.contains(x) {
                dates_of(feed.calendar_dates@, x)
            } else {
                Seq::empty()
            } by {
        lemma_push_contains(services@, sid@, x);
    }
}

/// All visits of the journeys, journey after journey.
pub open spec fn all_visits(js: Seq<TripView>) -> Seq<StopTimeView>
    decreases js.len(),
{
    if js.len() == 0 {
        Seq::empty()
    } else {
        all_visits(js.drop_last()) + js.last().stop_times
    }
}

/// The stops of the visits, one per stop id in order of first visit, each
/// named as in that visit.
pub open spec fn stops_of_visits(vs: Seq<StopTimeView>) -> Seq<StopView>
    decreases vs.len(),
{
    if vs.len() == 0 {
        Seq::empty()
    } else {
        let before = stops_of_visits(vs.drop_last());
        let v = vs.last();
        if exists|k: int| 0 <= k < before.len() && (#[trigger] before[k]).id == v.stop_id {
            before
        } else {
            before.push(StopView { id: v.stop_id, name: Some(v.name) })
        }
    }
}

/// The journeys of route `route_id`, in feed order.
fn route_journeys(feed: &Feed, route_id: &String) -> (r: Vec<Trip>)
    ensures
        trips_view(r@) == journeys_of(feed.trips@, route_id@),
{
    let mut journeys: Vec<Trip> = Vec::new();
    let mut i: usize = 0;
    while i < feed.trips.len()
        invariant
            i <= feed.trips@.len(),
            trips_view(journeys@) == journeys_of(feed.trips@.take(i as int), route_id@),
        decreases feed.trips@.len() - i,
    {
        let ghost prefix = feed.trips@.take(i as int + 1);
        assert(prefix.drop_last() =~= feed.trips@.take(i as int));
        assert(prefix.last() == feed.trips@[i as int]);
        if feed.trips[i].route_id == *route_id {
            match journey_from_feed(&feed.trips[i]) {
                Some(j) => {
                    journeys.push(j);
                    assert(trips_view(journeys@) =~= journeys_of(prefix, route_id@));
                },
                None => {},
            }
        }
        i = i + 1;
    }
    assert(feed.trips@.take(feed.trips@.len() as int) =~= feed.trips@);
    journeys
}

/// The service ids of the journeys, each once, in order of first use.
fn journey_services(js: &Vec<Trip>) -> (r: Vec<String>)
    ensures
        r@.map_values(|s: String| s@) == service_ids_of(trips_view(js@)),
{
    let mut ids: Vec<String> = Vec::new();
    let mut i: usize = 0;
    while i < js.len()
        invariant
            i <= js@.len(),
            ids@.map_values(|s: String| s@) == service_ids_of(trips_view(js@).take(i as int)),
        decreases js@.len() - i,
    {
        let ghost prefix = trips_view(js@).take(i as int + 1);
        assert(prefix.drop_last() =~= trips_view(js@).take(i as int));
        assert(prefix.last() == js@[i as int]@);
        let ghost before = ids@.map_values(|s: String| s@);
        if !contains_id(&ids, &js[i].service_id) {
            ids.push(js[i].service_id.clone());
            assert(!before.contains(js@[i as int]@.service_id)) by {
                if before.contains(js@[i as int]@.service_id) {
                    let k = choose|k: int| 0 <= k < before.len() && before[k] == js@[i as int]@.service_id;
                    assert(ids@[k]@ == js@[i as int].service_id@);
                }
            }
            assert(ids@.map_values(|s: String| s@) =~= service_ids_of(prefix));
        } else {
            assert(before.contains(js@[i as int]@.service_id)) by {
                let k = choose|k: int| 0 <= k < ids@.len() && (#[trigger] ids@[k])@ == js@[i as int].service_id@;
                assert(before[k] == js@[i as int]@.service_id);
            }
        }
        i = i + 1;
    }
    assert(trips_view(js@).take(js@.len() as int) =~= trips_view(js@));
    ids
}

/// Whether one of the stops has id `id`.
fn has_stop(stops: &Vec<Stop>, id: &String) -> (r: bool)
    ensures
        r == exists|k: int| 0 <= k < stops@.len() && (#[trigger] stops_view(stops@)[k]).id == id@,
{
    let mut k: usize = 0;
    while k < stops.len()
        invariant
            k <= stops@.len(),
            forall|q: int| 0 <= q < k ==> (#[trigger] stops_view(stops@)[q]).id != id@,
        decreases stops@.len() - k,
    {
        if stops[k].id == *id {
            assert(stops_view(stops@)[k as int].id == id@);
            return true;
        }
        k = k + 1;
    }
    false
}

/// The stops visited by the journeys, one per stop id in order of first
/// visit, each named as in that visit.
fn visited_stops(js: &Vec<Trip>) -> (r: Vec<Stop>)
    ensures
        stops_view(r@) == stops_of_visits(all_visits(trips_view(js@))),
{
    let ghost tv = trips_view(js@);
    let mut stops: Vec<Stop> = Vec::new();
    let mut t: usize = 0;
    assert(tv.take(0) =~= Seq::<TripView>::empty());
    while t < js.len()
        invariant
            t <= js@.len(),
            tv == trips_view(js@),
            stops_view(stops@) == stops_of_visits(all_visits(tv.take(t as int))),
        decreases js@.len() - t,
    {
        let ghost done = all_visits(tv.take(t as int));
        let ghost sts = tv[t as int].stop_times;
        assert(done + sts.take(0) =~= done);
        let mut s: usize = 0;
        while s < js[t].stop_times.len()
            invariant
                t < js@.len(),
                s <= js@[t as int].stop_times@.len(),
                tv == trips_view(js@),
                sts == tv[t as int].stop_times,
                stops_view(stops@) == stops_of_visits(done + sts.take(s as int)),
            decreases js@[t as int].stop_times@.len() - s,
        {
            let ghost vs = done + sts.take(s as int + 1);
            assert(vs.drop_last() =~= done + sts.take(s as int));
            assert(vs.last() == js@[t as int].stop_times@[s as int]@);
            let st = &js[t].stop_times[s];
            if !has_stop(&stops, &st.stop_id) {
                stops.push(Stop { id: st.stop_id.clone(), name: Some(st.name.clone()) });
                assert(stops_view(stops@) =~= stops_of_visits(vs));
            }
            s = s + 1;
        }
        assert(tv.take(t as int + 1).drop_last() =~= tv.take(t as int));
        assert(sts.take(sts.len() as int) =~= sts);
        t = t + 1;
    }
    assert(tv.take(js@.len() as int) =~= tv);
    stops
}

/// The calendar of the given services: the pattern of each one's first feed
/// calendar, and its feed exceptions.
fn services_calendar(feed: &Feed, services: &Vec<String>) -> (r: ServiceCalendar)
    requires
        services@.map_values(|s: String| s@).no_duplicates(),
    ensures
        calendar_of_services(r, *feed, services@.map_values(|s: String| s@)),
{
    let ghost ids = services@.map_values(|s: String| s@);
    let mut cal = ServiceCalendar::new();
    assert(ids.take(0) =~= Seq::<Seq<char>>::empty());
    assert forall|x: Seq<char>| #[trigger] pattern_for(cal.patterns@, x) is None by {}
    let mut k: usize = 0;
    while k < services.len()
        invariant
            k <= services@.len(),
            ids == services@.map_values(|s: String| s@),
            ids.no_duplicates(),
            calendar_of_services(cal, *feed, ids.take(k as int)),
        decreases services@.len() - k,
    {
        assert(!ids.take(k as int).contains(ids[k as int])) by {
            if ids.take(k as int).contains(ids[k as int]) {
                let q = choose|q: int| 0 <= q < k && ids.take(k as int)[q] == ids[k as int];
                assert(ids[q] == ids[k as int]);
            }
        }
        add_service(&mut cal, feed, &services[k], Ghost(ids.take(k as int)));
        assert(ids.take(k as int).push(ids[k as int]) =~= ids.take(k as int + 1));
        k = k + 1;
    }
    assert(ids.take(services@.len() as int) =~= ids);
    cal
}

proof fn lemma_service_ids_distinct(js: Seq<TripView>)
    ensures
        service_ids_of(js).no_duplicates(),
    decreases js.len(),
{
    if js.len() > 0 {
        lemma_service_ids_distinct(js.drop_last());
        let before = service_ids_of(js.drop_last());
        if !before.contains(js.last().service_id) {
            let after = before.push(js.last().service_id);
            assert forall|a: int, b: int| 0 <= a < after.len() && 0 <= b < after.len() && a != b implies after[a] != after[b] by {
                if a < before.len() && b < before.len() {
                    assert(after[a] == before[a] && after[b] == before[b]);
                } else if a < before.len() {
                    assert(after[a] == before[a]);
                } else if b < before.len() {
                    assert(after[b] == before[b]);
                }
            }
        }
    }
}

/// The timetable holds exactly what the feed gives route `route_id`: its
/// journeys, the stops they visit, and the calendar of their services.
pub open spec fn holds_route(tt: Timetable, feed: Feed, route_id: Seq<char>) -> bool {
    let js = journeys_of(feed.trips@, route_id);
    &&& trips_view(tt.trips@) == js
    &&& stops_view(tt.stops@) == stops_of_visits(all_visits(js))
    &&& calendar_of_services(tt.calendar, feed, service_ids_of(js))
}

impl Timetable {
    /// Replaces the trips, stops and calendar with those of route
    /// `route_id` in the feed. Stop times with neither a departure nor an
    /// arrival time within the day, or with an unnamed stop, are dropped, and
    /// so are trips left without stop times. Fails, leaving the timetable
    /// unchanged, when no trip of the route remains.
    pub fn extract_route(&mut self, feed: &Feed, route_id: &String) -> (r: Result<(), ExtractError>)
        ensures
            r is Err <==> journeys_of(feed.trips@, route_id@).len() == 0,
            r matches Err(e) ==> e == ExtractError::NoTrips && *final(self) == *old(self),
            r is Ok ==> holds_route(*final(self), *feed, route_id@),
            final(self).today == old(self).today,
            final(self).current_time == old(self).current_time,
    {
        let journeys = route_journeys(feed, route_id);
        if journeys.len() == 0 {
            return Err(ExtractError::NoTrips);
        }
        let services = journey_services(&journeys);
        proof {
            lemma_service_ids_distinct(trips_view(journeys@));
        }
        self.calendar = services_calendar(feed, &services);
        self.stops = visited_stops(&journeys);
        self.trips = journeys;
        Ok(())
    }
}

/// Extraction of one route of a feed into a timetable.
pub trait GtfsExtract {
    fn extract_gtfs_route(&mut self, feed: &Feed, route_id: &String) -> Result<(), ExtractError>;
}

impl GtfsExtract for Timetable {
    fn extract_gtfs_route(&mut self, feed: &Feed, route_id: &String) -> (r: Result<(), ExtractError>)
        ensures
            r is Err <==> journeys_of(feed.trips@, route_id@).len() == 0,
            r matches Err(e) ==> e == ExtractError::NoTrips && *final(self) == *old(self),
            r is Ok ==> holds_route(*final(self), *feed, route_id@),
    {
        self.extract_route(feed, route_id)
    }
}

/// Whether the feed's records have service `sid` run on `date`: a deleting
/// exception on the date wins, then an adding one, then the first calendar
/// of the service, within its validity window and on its weekdays.
pub open spec fn feed_runs_on(feed: Feed, sid: Seq<char>, date: Date) -> bool {
    let excs = dates_of(feed.calendar_dates@, sid);
    if has_exception_on(excs, date, ExceptionKind::Deleted) {
        false
    } else if has_exception_on(excs, date, ExceptionKind::Added) {
        true
    } else {
        match first_calendar(feed.calendars@, sid) {
            Some(c) => c.start_date.spec_le(date) && date.spec_le(c.end_date) && calendar_has_day(
                c,
                date.weekday as int,
            ),
            None => false,
        }
    }
}

/// After a route is extracted, the services that run on any date are
/// exactly the services of the route's journeys that the feed's records
/// have run on that date.
pub proof fn lemma_extracted_services_resolve(tt: Timetable, feed: Feed, route_id: Seq<char>, date: Date)
    requires
        holds_route(tt, feed, route_id),
    ensures
        forall|sid: Seq<char>| #[trigger] tt.calendar.active_on(sid, date) == (service_ids_of(
            journeys_of(feed.trips@, route_id),
        ).contains(sid) && feed_runs_on(feed, sid, date)),
{
    let services = service_ids_of(journeys_of(feed.trips@, route_id));
    assert forall|sid: Seq<char>| #[trigger] tt.calendar.active_on(sid, date) == (services.contains(sid) && feed_runs_on(feed, sid, date)) by {
        assert(tt.calendar.exceptions_of(sid) == if services.contains(sid) {
            dates_of(feed.calendar_dates@, sid)
        } else {
            Seq::empty()
        });
        assert(pattern_entry(pattern_for(tt.calendar.patterns@, sid), feed, services, sid));
        if !services.contains(sid) {
            assert(!has_exception_on(Seq::<ServiceException>::empty(), date, ExceptionKind::Added));
            assert(!has_exception_on(Seq::<ServiceException>::empty(), date, ExceptionKind::Deleted));
        }
        match (pattern_for(tt.calendar.patterns@, sid), first_calendar(feed.calendars@, sid)) {
            (Some(p), Some(c)) => {
                assert(p.weekdays.has(date.weekday as int) == calendar_has_day(c, date.weekday as int));
            },
            _ => {},
        }
    }
}

} // verus!
