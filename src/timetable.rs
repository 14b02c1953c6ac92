//! The timetable of one route: its trips, stops and service calendar.
use crate::date::{now, Date, TimeOfDay};
use crate::service::{exception_entries, ServiceCalendar, ServiceResolver};
use vstd::prelude::*;
use vstd::utf8::{encode_utf8, encode_utf8_decode_utf8};

verus! {

/// A stop of the feed. Its name may be missing.
#[derive(Debug)]
pub struct Stop {
    pub id: String,
    pub name: Option<String>,
}

pub struct StopView {
    pub id: Seq<char>,
    pub name: Option<Seq<char>>,
}

pub open spec fn opt_view(s: Option<String>) -> Option<Seq<char>> {
    match s {
        Some(n) => Some(n@),
        None => None,
    }
}

impl View for Stop {
    type V = StopView;

    open spec fn view(&self) -> StopView {
        StopView { id: self.id@, name: opt_view(self.name) }
    }
}

/// A visit of a stop by a trip, at a time of day. The stop's name is copied
/// into the visit.
#[derive(Debug)]
pub struct StopTime {
    pub time: TimeOfDay,
    pub stop_id: String,
    pub name: String,
}

pub struct StopTimeView {
    pub time: TimeOfDay,
    pub stop_id: Seq<char>,
    pub name: Seq<char>,
}

impl View for StopTime {
    type V = StopTimeView;

    open spec fn view(&self) -> StopTimeView {
        StopTimeView { time: self.time, stop_id: self.stop_id@, name: self.name@ }
    }
}

/// One scheduled run along a route: its stop visits in feed order.
#[derive(Debug)]
pub struct Trip {
    pub id: String,
    pub service_id: String,
    pub route_id: String,
    pub stop_times: Vec<StopTime>,
}

pub struct TripView {
    pub id: Seq<char>,
    pub service_id: Seq<char>,
    pub route_id: Seq<char>,
    pub stop_times: Seq<StopTimeView>,
}

impl View for Trip {
    type V = TripView;

    open spec fn view(&self) -> TripView {
        TripView {
            id: self.id@,
            service_id: self.service_id@,
            route_id: self.route_id@,
            stop_times: self.stop_times@.map_values(|st: StopTime| st@),
        }
    }
}

/// The views of a sequence of stops.
pub open spec fn stops_view(stops: Seq<Stop>) -> Seq<StopView> {
    stops.map_values(|s: Stop| s@)
}

/// The views of a sequence of trips.
pub open spec fn trips_view(trips: Seq<Trip>) -> Seq<TripView> {
    trips.map_values(|t: Trip| t@)
}

/// The timetable of one route, as of a reference date and time.
pub struct Timetable {
    pub today: Date,
    pub current_time: TimeOfDay,
    pub calendar: ServiceCalendar,
    pub stops: Vec<Stop>,
    pub trips: Vec<Trip>,
}

impl Timetable {
    /// An empty timetable whose reference date and time are now.
    pub fn new() -> (r: Timetable)
        ensures
            r.today.wf(),
            r.current_time.wf(),
            r.trips@.len() == 0,
            r.stops@.len() == 0,
            r.calendar.patterns@.len() == 0,
            exception_entries(r.calendar.exceptions) =~= Map::empty(),
    {
        let (today, current_time) = now();
        Timetable::new_on(today, current_time)
    }

    /// An empty timetable with the given reference date and time.
    pub fn new_on(today: Date, current_time: TimeOfDay) -> (r: Timetable)
        ensures
            r.today == today,
            r.current_time == current_time,
            r.trips@.len() == 0,
            r.stops@.len() == 0,
            r.calendar.patterns@.len() == 0,
            exception_entries(r.calendar.exceptions) =~= Map::empty(),
    {
        Timetable {
            today,
            current_time,
            calendar: ServiceCalendar::new(),
            stops: Vec::new(),
            trips: Vec::new(),
        }
    }

    /// Trip `i` has a first stop time and its service runs on the reference
    /// date.
    pub open spec fn runs_today(&self, i: int) -> bool {
        &&& self.trips@[i].stop_times@.len() > 0
        &&& self.calendar.active_on(self.trips@[i].service_id@, self.today)
    }

    /// The time of day of the first stop time of trip `i`.
    pub open spec fn first_time(&self, i: int) -> u32 {
        self.trips@[i].stop_times@[0].time.seconds
    }

    /// Trip `i` leaves its first stop before trip `j`, or at the same time
    /// and comes first in the timetable.
    pub open spec fn leaves_before(&self, i: int, j: int) -> bool {
        self.first_time(i) < self.first_time(j) || (self.first_time(i) == self.first_time(j) && i
            < j)
    }

    /// The indices of the trips running on the reference date, ordered by
    /// the time of their first stop; trips leaving at the same time keep
    /// their order in the timetable. Trips without stop times are left out.
    pub fn running_today(&self) -> (r: Vec<usize>)
        ensures
            forall|k: int| 0 <= k < r@.len() ==> (#[trigger] r@[k]) < self.trips@.len() && self.runs_today(r@[k] as int),
            forall|i: int| 0 <= i < self.trips@.len() && #[trigger] self.runs_today(i) ==> r@.contains(i as usize),
            forall|k: int, l: int| 0 <= k < l < r@.len() ==> self.leaves_before(#[trigger] r@[k] as int, #[trigger] r@[l] as int),
    {
        let mut resolver = ServiceResolver::new(self.today);
        let mut order: Vec<usize> = Vec::new();
        let mut i: usize = 0;
        while i < self.trips.len()
            invariant
                i <= self.trips@.len(),
                resolver.date() == self.today,
                resolver.consistent_with(&self.calendar),
                forall|k: int| 0 <= k < order@.len() ==> (#[trigger] order@[k]) < i && self.runs_today(order@[k] as int),
                forall|j: int| 0 <= j < i && #[trigger] self.runs_today(j) ==> order@.contains(j as usize),
                forall|k: int, l: int| 0 <= k < l < order@.len() ==> self.leaves_before(#[trigger] order@[k] as int, #[trigger] order@[l] as int),
            decreases self.trips@.len() - i,
        {
            let trip = &self.trips[i];
            if trip.stop_times.len() > 0 && resolver.is_active(&self.calendar, &trip.service_id) {
                let t = trip.stop_times[0].time.seconds;
                let mut p: usize = 0;
                while p < order.len() && self.trips[order[p]].stop_times[0].time.seconds <= t
                    invariant
                        p <= order@.len(),
                        i < self.trips@.len(),
                        t == self.first_time(i as int),
                        forall|k: int| 0 <= k < order@.len() ==> (#[trigger] order@[k]) < i && self.runs_today(order@[k] as int),
                        forall|k: int| 0 <= k < p ==> self.first_time(#[trigger] order@[k] as int) <= t,
                    decreases order@.len() - p,
                {
                    p = p + 1;
                }
                let ghost before = order@;
                order.insert(p, i);
                assert forall|k: int, l: int| 0 <= k < l < order@.len() implies self.leaves_before(#[trigger] order@[k] as int, #[trigger] order@[l] as int) by {
                    if l < p {
                        assert(order@[k] == before[k] && order@[l] == before[l]);
                    } else if l == p {
                        assert(order@[k] == before[k]);
                    } else if k < p {
                        assert(order@[k] == before[k] && order@[l] == before[l - 1]);
                        if p < before.len() {
                            assert(self.leaves_before(before[p as int] as int, before[l - 1] as int) || l - 1 == p);
                        }
                    } else if k == p {
                        assert(order@[l] == before[l - 1]);
                        assert(self.leaves_before(before[p as int] as int, before[l - 1] as int) || l - 1 == p);
                    } else {
                        assert(order@[k] == before[k - 1] && order@[l] == before[l - 1]);
                    }
                }
                assert forall|j: int| 0 <= j <= i && #[trigger] self.runs_today(j) implies order@.contains(j as usize) by {
                    if j < i {
                        let k = choose|k: int| 0 <= k < before.len() && before[k] == j as usize;
                        if k < p {
                            assert(order@[k] == j as usize);
                        } else {
                            assert(order@[k + 1] == j as usize);
                        }
                    } else {
                        assert(order@[p as int] == i);
                    }
                }
            }
            i = i + 1;
        }
        order
    }
}

/// One of the strings is `n`.
pub open spec fn names_contain(names: Seq<String>, n: Seq<char>) -> bool {
    exists|k: int| 0 <= k < names.len() && (#[trigger] names[k])@ == n
}

impl Timetable {
    /// Some stop time of some trip carries the name `n`.
    pub open spec fn has_visit_named(&self, n: Seq<char>) -> bool {
        exists|t: int, s: int|
            0 <= t < self.trips@.len() && 0 <= s < self.trips@[t].stop_times@.len() && (
            #[trigger] self.trips@[t].stop_times@[s]).name@ == n
    }

    /// The names carried by the stop times of all trips, each once, in
    /// ascending order.
    pub fn served_stops_today(&self) -> (r: Vec<String>)
        ensures
            forall|k: int| 0 <= k < r@.len() ==> self.has_visit_named(#[trigger] r@[k]@),
            forall|t: int, s: int|
                0 <= t < self.trips@.len() && 0 <= s < self.trips@[t].stop_times@.len() ==> names_contain(r@, (#[trigger] self.trips@[t].stop_times@[s]).name@),
            forall|k: int, l: int| 0 <= k < l < r@.len() ==> name_lt((#[trigger] r@[k])@, (#[trigger] r@[l])@),
    {
        let mut names: Vec<String> = Vec::new();
        let mut t: usize = 0;
        while t < self.trips.len()
            invariant
                t <= self.trips@.len(),
                forall|k: int| 0 <= k < names@.len() ==> self.has_visit_named(#[trigger] names@[k]@),
                forall|u: int, s: int|
                    0 <= u < t && 0 <= s < self.trips@[u].stop_times@.len() ==> names_contain(names@, (#[trigger] self.trips@[u].stop_times@[s]).name@),
                forall|k: int, l: int| 0 <= k < l < names@.len() ==> name_lt((#[trigger] names@[k])@, (#[trigger] names@[l])@),
            decreases self.trips@.len() - t,
        {
            let mut s: usize = 0;
            while s < self.trips[t].stop_times.len()
                invariant
                    t < self.trips@.len(),
                    s <= self.trips@[t as int].stop_times@.len(),
                    forall|k: int| 0 <= k < names@.len() ==> self.has_visit_named(#[trigger] names@[k]@),
                    forall|u: int, q: int|
                        0 <= u < t && 0 <= q < self.trips@[u].stop_times@.len() ==> names_contain(names@, (#[trigger] self.trips@[u].stop_times@[q]).name@),
                    forall|q: int|
                        0 <= q < s ==> names_contain(names@, (#[trigger] self.trips@[t as int].stop_times@[q]).name@),
                    forall|k: int, l: int| 0 <= k < l < names@.len() ==> name_lt((#[trigger] names@[k])@, (#[trigger] names@[l])@),
                decreases self.trips@[t as int].stop_times@.len() - s,
            {
                let name = &self.trips[t].stop_times[s].name;
                assert(self.has_visit_named(name@)) by {
                    assert(self.trips@[t as int].stop_times@[s as int].name@ == name@);
                }
                let mut p: usize = 0;
                while p < names.len() && name_less(&names[p], name)
                    invariant
                        p <= names@.len(),
                        forall|k: int| 0 <= k < p ==> name_lt((#[trigger] names@[k])@, name@),
                    decreases names@.len() - p,
                {
                    p = p + 1;
                }
                let ghost before = names@;
                if p < names.len() && names[p] == *name {
                    assert(before[p as int]@ == self.trips@[t as int].stop_times@[s as int].name@);
                    assert(names_contain(names@, self.trips@[t as int].stop_times@[s as int].name@));
                } else {
                    proof {
                        if p < before.len() {
                            lemma_name_lt_total(before[p as int]@, name@);
                        }
                    }
                    names.insert(p, name.clone());
                    assert(names@[p as int]@ == self.trips@[t as int].stop_times@[s as int].name@);
                    assert(names_contain(names@, self.trips@[t as int].stop_times@[s as int].name@));
                    assert forall|k: int| 0 <= k < names@.len() implies self.has_visit_named(#[trigger] names@[k]@) by {
                        if k < p {
                            assert(names@[k] == before[k]);
                        } else if k > p {
                            assert(names@[k] == before[k - 1]);
                        }
                    }
                    assert forall|k: int, l: int| 0 <= k < l < names@.len() implies name_lt((#[trigger] names@[k])@, (#[trigger] names@[l])@) by {
                        if l < p {
                            assert(names@[k] == before[k] && names@[l] == before[l]);
                        } else if l == p {
                            assert(names@[k] == before[k]);
                        } else if k < p {
                            assert(names@[k] == before[k] && names@[l] == before[l - 1]);
                            if l - 1 > p {
                                lemma_bytes_lt_trans(encode_utf8(name@), encode_utf8(before[p as int]@), encode_utf8(before[l - 1]@));
                            }
                            lemma_bytes_lt_trans(encode_utf8(before[k]@), encode_utf8(name@), encode_utf8(before[l - 1]@));
                        } else if k == p {
                            assert(names@[l] == before[l - 1]);
                            if l - 1 > p {
                                lemma_bytes_lt_trans(encode_utf8(name@), encode_utf8(before[p as int]@), encode_utf8(before[l - 1]@));
                            }
                        } else {
                            assert(names@[k] == before[k - 1] && names@[l] == before[l - 1]);
                        }
                    }
                    assert forall|u: int, q: int|
                        0 <= u < t && 0 <= q < self.trips@[u].stop_times@.len() implies names_contain(names@, (#[trigger] self.trips@[u].stop_times@[q]).name@) by {
                        let k = choose|k: int| 0 <= k < before.len() && (#[trigger] before[k])@ == self.trips@[u].stop_times@[q].name@;
                        if k < p {
                            assert(names@[k] == before[k]);
                        } else {
                            assert(names@[k + 1] == before[k]);
                        }
                    }
                    assert forall|q: int|
                        0 <= q < s implies names_contain(names@, (#[trigger] self.trips@[t as int].stop_times@[q]).name@) by {
                        let k = choose|k: int| 0 <= k < before.len() && (#[trigger] before[k])@ == self.trips@[t as int].stop_times@[q].name@;
                        if k < p {
                            assert(names@[k] == before[k]);
                        } else {
                            assert(names@[k + 1] == before[k]);
                        }
                    }
                }
                s = s + 1;
            }
            t = t + 1;
        }
        names
    }
}

/// Lexicographic order on byte strings, a proper prefix coming first.
pub open spec fn bytes_lt(a: Seq<u8>, b: Seq<u8>) -> bool
    decreases a.len(),
{
    if a.len() == 0 {
        b.len() > 0
    } else if b.len() == 0 {
        false
    } else if a[0] != b[0] {
        a[0] < b[0]
    } else {
        bytes_lt(a.drop_first(), b.drop_first())
    }
}

/// The order of `String`: lexicographic on the UTF-8 bytes.
pub open spec fn name_lt(a: Seq<char>, b: Seq<char>) -> bool {
    bytes_lt(encode_utf8(a), encode_utf8(b))
}

proof fn lemma_bytes_lt_trans(a: Seq<u8>, b: Seq<u8>, c: Seq<u8>)
    requires
        bytes_lt(a, b),
        bytes_lt(b, c),
    ensures
        bytes_lt(a, c),
    decreases a.len(),
{
    if a.len() > 0 && b.len() > 0 && c.len() > 0 && a[0] == b[0] && b[0] == c[0] {
        lemma_bytes_lt_trans(a.drop_first(), b.drop_first(), c.drop_first());
    }
}

proof fn lemma_bytes_lt_total(a: Seq<u8>, b: Seq<u8>)
    ensures
        a =~= b || bytes_lt(a, b) || bytes_lt(b, a),
        !(bytes_lt(a, b) && bytes_lt(b, a)),
    decreases a.len(),
{
    if a.len() > 0 && b.len() > 0 && a[0] == b[0] {
        lemma_bytes_lt_total(a.drop_first(), b.drop_first());
        if a.drop_first() =~= b.drop_first() {
            assert(a =~= seq![a[0]] + a.drop_first());
            assert(b =~= seq![b[0]] + b.drop_first());
        }
    }
}

proof fn lemma_name_lt_total(a: Seq<char>, b: Seq<char>)
    ensures
        a == b || name_lt(a, b) || name_lt(b, a),
        !(name_lt(a, b) && name_lt(b, a)),
{
    lemma_bytes_lt_total(encode_utf8(a), encode_utf8(b));
    encode_utf8_decode_utf8(a);
    encode_utf8_decode_utf8(b);
}

/// Whether `a` comes before `b` in the order of `String`.
pub fn name_less(a: &String, b: &String) -> (r: bool)
    ensures
        r == name_lt(a@, b@),
{
    let x = a.as_str().as_bytes();
    let y = b.as_str().as_bytes();
    let mut i: usize = 0;
    assert(x@.skip(0) =~= x@);
    assert(y@.skip(0) =~= y@);
    while i < x.len() && i < y.len() && x[i] == y[i]
        invariant
            i <= x@.len(),
            i <= y@.len(),
            x@ == encode_utf8(a@),
            y@ == encode_utf8(b@),
            bytes_lt(x@, y@) == bytes_lt(x@.skip(i as int), y@.skip(i as int)),
        decreases x@.len() - i,
    {
        assert(x@.skip(i as int).drop_first() =~= x@.skip(i + 1));
        assert(y@.skip(i as int).drop_first() =~= y@.skip(i + 1));
        i = i + 1;
    }
    if i < x.len() && i < y.len() {
        x[i] < y[i]
    } else {
        i == x.len() && i < y.len()
    }
}

} // verus!
