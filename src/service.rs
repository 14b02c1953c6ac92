//! Weekly service patterns, dated exceptions, and the resolver that decides
//! whether a service runs on a date.
use crate::date::Date;
use multimap::MultiMap;
use vstd::prelude::*;

verus! {

/// A set of weekdays, bit `d` standing for weekday `d` (Monday is 0).
#[derive(Clone, Copy, Debug, PartialEq, Eq, Structural)]
pub struct WeekdayFlags {
    pub bits: u8,
}

impl WeekdayFlags {
    /// Whether weekday `d` belongs to the set.
    pub open spec fn has(self, d: int) -> bool {
        0 <= d < 7 && (self.bits >> (d as u8)) & 1u8 == 1u8
    }

    /// The empty set: a service with it runs only on its added dates.
    pub fn never() -> (r: WeekdayFlags)
        ensures
            forall|d: int| !r.has(d),
    {
        let r = WeekdayFlags { bits: 0 };
        assert(forall|d: u8| d < 7 ==> (0u8 >> d) & 1u8 != 1u8) by (bit_vector);
        r
    }

    /// Adds weekday `day` to the set when `on`, removes it otherwise.
    pub fn set(&mut self, day: u8, on: bool)
        requires
            day < 7,
        ensures
            forall|d: int| #[trigger]
                final(self).has(d) == if d == day as int {
                    on
                } else {
                    old(self).has(d)
                },
    {
        let old_bits = self.bits;
        if on {
            self.bits = old_bits | (1u8 << day);
        } else {
            self.bits = old_bits & !(1u8 << day);
        }
        assert forall|d: int| #[trigger]
            self.has(d) == if d == day as int {
                on
            } else {
                old(self).has(d)
            } by {
            if 0 <= d < 7 {
                lemma_update_bit(old_bits, day, d as u8);
            }
        }
    }

    /// Whether weekday `day` belongs to the set.
    pub fn contains(&self, day: u8) -> (r: bool)
        ensures
            r == self.has(day as int),
    {
        day < 7 && (self.bits >> day) & 1u8 == 1u8
    }
}

/// A weekly recurrence valid between two dates, both included.
#[derive(Debug)]
pub struct ServicePattern {
    pub service_id: String,
    pub weekdays: WeekdayFlags,
    pub start_date: Date,
    pub end_date: Date,
}

/// Whether a dated exception adds or removes a service on its date.
#[derive(Clone, Copy, Debug, PartialEq, Eq, Structural)]
pub enum ExceptionKind {
    Added,
    Deleted,
}

/// A dated override of a service's weekly pattern.
#[derive(Clone, Copy, Debug, PartialEq, Eq, Structural)]
pub struct ServiceException {
    pub date: Date,
    pub exception_type: ExceptionKind,
}

#[verifier::external_type_specification]
#[verifier::external_body]
#[verifier::reject_recursive_types(K)]
#[verifier::reject_recursive_types(V)]
#[verifier::reject_recursive_types(S)]
pub struct ExMultiMap<K, V, S>(MultiMap<K, V, S>);

/// Dated exceptions keyed by service id.
pub type ExceptionMap = MultiMap<String, ServiceException>;

/// What an exception multimap holds: for each service id present, its
/// exceptions in the order they were inserted.
pub uninterp spec fn exception_entries(m: ExceptionMap) -> Map<
    Seq<char>,
    Seq<ServiceException>,
>;

/// Relies on `MultiMap::new`: the map starts empty.
#[verifier::external_body]
pub(crate) fn new_exception_map() -> (r: ExceptionMap)
    ensures
        exception_entries(r) =~= Map::empty(),
{
    MultiMap::new()
}

/// Relies on `MultiMap::insert`: the value is pushed at the end of the key's
/// vector, which is created when the key is new.
#[verifier::external_body]
pub(crate) fn insert_exception(
    m: &mut ExceptionMap,
    k: String,
    v: ServiceException,
)
    ensures
        exception_entries(*final(m)) == exception_entries(*old(m)).insert(
            k@,
            if exception_entries(*old(m)).contains_key(k@) {
                exception_entries(*old(m))[k@].push(v)
            } else {
                seq![v]
            },
        ),
{
    m.insert(k, v)
}

/// Relies on `MultiMap::get_vec`: the vector of values under the key, if any.
#[verifier::external_body]
fn exceptions_under<'a>(m: &'a ExceptionMap, k: &String) -> (r: Option<
    &'a Vec<ServiceException>,
>)
    ensures
        r is Some <==> exception_entries(*m).contains_key(k@),
        r matches Some(v) ==> v@ == exception_entries(*m)[k@],
{
    m.get_vec(k)
}

/// The two dates name the same calendar day.
pub open spec fn same_day(a: Date, b: Date) -> bool {
    a.year == b.year && a.month == b.month && a.day == b.day
}

/// Some exception of the given kind falls on `date`.
pub open spec fn has_exception_on(excs: Seq<ServiceException>, date: Date, kind: ExceptionKind) -> bool {
    exists|i: int| 0 <= i < excs.len() && same_day(#[trigger] excs[i].date, date) && excs[i].exception_type == kind
}

/// The first pattern stored for `service_id`.
pub open spec fn pattern_for(patterns: Seq<ServicePattern>, service_id: Seq<char>) -> Option<ServicePattern>
    decreases patterns.len(),
{
    if patterns.len() == 0 {
        None
    } else if patterns[0].service_id@ == service_id {
        Some(patterns[0])
    } else {
        pattern_for(patterns.drop_first(), service_id)
    }
}

/// The weekly pattern alone lets the service run on `date`: the date lies in
/// the validity window and its weekday is in the pattern.
pub open spec fn pattern_runs_on(p: ServicePattern, date: Date) -> bool {
    p.start_date.spec_le(date) && date.spec_le(p.end_date) && p.weekdays.has(date.weekday as int)
}

/// Whether a service with these exceptions and this pattern (if any) runs on
/// `date`: a deletion on the date wins, then an addition, then the pattern.
pub open spec fn runs_on(
    excs: Seq<ServiceException>,
    pattern: Option<ServicePattern>,
    date: Date,
) -> bool {
    if has_exception_on(excs, date, ExceptionKind::Deleted) {
        false
    } else if has_exception_on(excs, date, ExceptionKind::Added) {
        true
    } else {
        match pattern {
            Some(p) => pattern_runs_on(p, date),
            None => false,
        }
    }
}

/// The weekly patterns and dated exceptions of a set of services.
pub struct ServiceCalendar {
    pub patterns: Vec<ServicePattern>,
    pub exceptions: ExceptionMap,
}

impl ServiceCalendar {
    /// The exceptions recorded for `service_id`, in insertion order.
    pub open spec fn exceptions_of(&self, service_id: Seq<char>) -> Seq<ServiceException> {
        let entries = exception_entries(self.exceptions);
        if entries.contains_key(service_id) {
            entries[service_id]
        } else {
            Seq::empty()
        }
    }

    /// Whether service `service_id` runs on `date`.
    pub open spec fn active_on(&self, service_id: Seq<char>, date: Date) -> bool {
        runs_on(self.exceptions_of(service_id), pattern_for(self.patterns@, service_id), date)
    }

    /// A calendar with no pattern and no exception.
    pub fn new() -> (r: ServiceCalendar)
        ensures
            r.patterns@.len() == 0,
            exception_entries(r.exceptions) =~= Map::empty(),
    {
        ServiceCalendar { patterns: Vec::new(), exceptions: new_exception_map() }
    }

    /// The first pattern stored for `service_id`, if any.
    pub fn find_pattern(&self, service_id: &String) -> (r: Option<&ServicePattern>)
        ensures
            r matches Some(p) ==> pattern_for(self.patterns@, service_id@) == Some(*p),
            r is None ==> pattern_for(self.patterns@, service_id@) is None,
    {
        let mut i: usize = 0;
        assert(self.patterns@.subrange(0, self.patterns@.len() as int) =~= self.patterns@);
        while i < self.patterns.len()
            invariant
                i <= self.patterns@.len(),
                pattern_for(self.patterns@, service_id@) == pattern_for(
                    self.patterns@.subrange(i as int, self.patterns@.len() as int),
                    service_id@,
                ),
            decreases self.patterns@.len() - i,
        {
            let ghost rest = self.patterns@.subrange(i as int, self.patterns@.len() as int);
            assert(rest.drop_first() =~= self.patterns@.subrange(i + 1, self.patterns@.len() as int));
            if self.patterns[i].service_id == *service_id {
                return Some(&self.patterns[i]);
            }
            i = i + 1;
        }
        None
    }

    /// Whether service `service_id` runs on `date`: a deleting exception on
    /// the date wins, then an adding one, then the weekly pattern within its
    /// validity window. A service with neither is not running.
    pub fn is_active(&self, service_id: &String, date: &Date) -> (r: bool)
        ensures
            r == self.active_on(service_id@, *date),
    {
        let mut added = false;
        match exceptions_under(&self.exceptions, service_id) {
            Some(excs) => {
                let mut i: usize = 0;
                while i < excs.len()
                    invariant
                        i <= excs@.len(),
                        excs@ == self.exceptions_of(service_id@),
                        !has_exception_on(excs@.take(i as int), *date, ExceptionKind::Deleted),
                        added == has_exception_on(excs@.take(i as int), *date, ExceptionKind::Added),
                    decreases excs@.len() - i,
                {
                    let e = excs[i];
                    let on_date = e.date.year == date.year && e.date.month == date.month
                        && e.date.day == date.day;
                    assert(excs@.take(i + 1) =~= excs@.take(i as int).push(e));
                    proof {
                        lemma_has_exception_push(excs@.take(i as int), e, *date, ExceptionKind::Added);
                        lemma_has_exception_push(excs@.take(i as int), e, *date, ExceptionKind::Deleted);
                    }
                    if on_date {
                        match e.exception_type {
                            ExceptionKind::Deleted => {
                                assert(excs@[i as int] == e);
                                return false;
                            },
                            ExceptionKind::Added => {
                                added = true;
                            },
                        }
                    }
                    i = i + 1;
                }
                assert(excs@.take(excs@.len() as int) =~= excs@);
            },
            None => {},
        }
        if added {
            return true;
        }
        match self.find_pattern(service_id) {
            Some(p) => p.start_date.is_on_or_before(date) && date.is_on_or_before(&p.end_date)
                && p.weekdays.contains(date.weekday),
            None => false,
        }
    }
}

/// Answers "does this service run on the date?" for one fixed date, caching
/// the answers by service id. It is meant for one calendar, which must stay
/// unchanged while the resolver is in use.
pub struct ServiceResolver {
    date: Date,
    running: Vec<String>,
    not_running: Vec<String>,
}

impl ServiceResolver {
    pub closed spec fn date(&self) -> Date {
        self.date
    }

    /// Every cached answer agrees with `calendar`.
    pub closed spec fn consistent_with(&self, calendar: &ServiceCalendar) -> bool {
        &&& forall|i: int| 0 <= i < self.running@.len() ==> calendar.active_on(#[trigger] self.running@[i]@, self.date)
        &&& forall|i: int| 0 <= i < self.not_running@.len() ==> !calendar.active_on(#[trigger] self.not_running@[i]@, self.date)
    }

    /// A resolver for `date` that has resolved nothing yet.
    pub fn new(date: Date) -> (r: ServiceResolver)
        ensures
            r.date() == date,
            forall|calendar: &ServiceCalendar| r.consistent_with(calendar),
    {
        ServiceResolver { date, running: Vec::new(), not_running: Vec::new() }
    }

    /// The date this resolver answers for.
    pub fn resolved_date(&self) -> (r: Date)
        ensures
            r == self.date(),
    {
        self.date
    }

    /// Whether service `service_id` of `calendar` runs on the resolver's date.
    /// A cached answer is returned when there is one; otherwise the answer is
    /// computed and cached.
    pub fn is_active(&mut self, calendar: &ServiceCalendar, service_id: &String) -> (r: bool)
        requires
            old(self).consistent_with(calendar),
        ensures
            r == calendar.active_on(service_id@, old(self).date()),
            final(self).date() == old(self).date(),
            final(self).consistent_with(calendar),
    {
        if contains_id(&self.running, service_id) {
            return true;
        }
        if contains_id(&self.not_running, service_id) {
            return false;
        }
        let r = calendar.is_active(service_id, &self.date);
        if r {
            self.running.push(service_id.clone());
        } else {
            self.not_running.push(service_id.clone());
        }
        assert forall|i: int| 0 <= i < self.running@.len() implies calendar.active_on(
            #[trigger] self.running@[i]@,
            self.date,
        ) by {
            if i < old(self).running@.len() {
                assert(self.running@[i] == old(self).running@[i]);
            }
        }
        assert forall|i: int| 0 <= i < self.not_running@.len() implies !calendar.active_on(
            #[trigger] self.not_running@[i]@,
            self.date,
        ) by {
            if i < old(self).not_running@.len() {
                assert(self.not_running@[i] == old(self).not_running@[i]);
            }
        }
        r
    }
}

/// Whether `ids` holds `id`.
pub(crate) fn contains_id(ids: &Vec<String>, id: &String) -> (r: bool)
    ensures
        r <==> exists|i: int| 0 <= i < ids@.len() && (#[trigger] ids@[i])@ == id@,
{
    let mut i: usize = 0;
    while i < ids.len()
        invariant
            i <= ids@.len(),
            forall|j: int| 0 <= j < i ==> (#[trigger] ids@[j])@ != id@,
        decreases ids@.len() - i,
    {
        if ids[i] == *id {
            return true;
        }
        i = i + 1;
    }
    false
}

/// A service with no exception on `date` does not run on a date outside the
/// validity window of its pattern, whatever the pattern's weekdays.
pub proof fn lemma_inactive_outside_window(cal: &ServiceCalendar, service_id: Seq<char>, date: Date)
    requires
        !has_exception_on(cal.exceptions_of(service_id), date, ExceptionKind::Added),
        !has_exception_on(cal.exceptions_of(service_id), date, ExceptionKind::Deleted),
        pattern_for(cal.patterns@, service_id) matches Some(p) ==> !(p.start_date.spec_le(date)
            && date.spec_le(p.end_date)),
    ensures
        !cal.active_on(service_id, date),
{
}

/// A service with a deleting exception on `date` does not run on it, even
/// when its pattern would have it run.
pub proof fn lemma_deleted_wins(cal: &ServiceCalendar, service_id: Seq<char>, date: Date)
    requires
        has_exception_on(cal.exceptions_of(service_id), date, ExceptionKind::Deleted),
    ensures
        !cal.active_on(service_id, date),
{
}

/// A service with an adding exception on `date`, and no deleting one, runs
/// on it, even outside its validity window or off its weekdays.
pub proof fn lemma_added_runs(cal: &ServiceCalendar, service_id: Seq<char>, date: Date)
    requires
        has_exception_on(cal.exceptions_of(service_id), date, ExceptionKind::Added),
        !has_exception_on(cal.exceptions_of(service_id), date, ExceptionKind::Deleted),
    ensures
        cal.active_on(service_id, date),
{
}

proof fn lemma_has_exception_push(
    excs: Seq<ServiceException>,
    e: ServiceException,
    date: Date,
    kind: ExceptionKind,
)
    ensures
        has_exception_on(excs.push(e), date, kind) == (has_exception_on(excs, date, kind) || (
        same_day(e.date, date) && e.exception_type == kind)),
{
    let pushed = excs.push(e);
    if has_exception_on(excs, date, kind) {
        let j = choose|j: int|
            0 <= j < excs.len() && same_day(#[trigger] excs[j].date, date) && excs[j].exception_type
                == kind;
        assert(pushed[j] == excs[j]);
    }
    if same_day(e.date, date) && e.exception_type == kind {
        assert(pushed[excs.len() as int] == e);
    }
    if has_exception_on(pushed, date, kind) {
        let j = choose|j: int|
            0 <= j < pushed.len() && same_day(#[trigger] pushed[j].date, date)
                && pushed[j].exception_type == kind;
        if j < excs.len() {
            assert(pushed[j] == excs[j]);
        }
    }
}

proof fn lemma_update_bit(b: u8, day: u8, e: u8)
    by (bit_vector)
    requires
        day < 7,
        e < 7,
    ensures
        ((b | (1u8 << day)) >> e) & 1u8 == 1u8 <==> (e == day || (b >> e) & 1u8 == 1u8),
        ((b & !(1u8 << day)) >> e) & 1u8 == 1u8 <==> (e != day && (b >> e) & 1u8 == 1u8),
{
}

} // verus!
