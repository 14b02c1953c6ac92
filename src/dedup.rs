//! Unification of stop names that differ only by diacritics or case.
//!
//! Two stops collide when their names differ but agree once transliterated to
//! ASCII and lower-cased. Collisions are collected in one pass over the stops,
//! then each colliding pair takes the longer of its two names (in bytes), on
//! the stop and on every visit of that stop.
use crate::timetable::{
    stops_view, trips_view, Stop, StopTimeView, StopView, Timetable, TripView,
};
use vstd::prelude::*;
use vstd::utf8::encode_utf8;

verus! {

/// The ASCII transliteration of a text.
pub uninterp spec fn transliterated(s: Seq<char>) -> Seq<char>;

/// The lower-case form of a text.
pub uninterp spec fn lowercased(s: Seq<char>) -> Seq<char>;

/// Relies on `unidecode::unidecode`: the transliteration depends on the
/// characters alone.
#[verifier::external_body]
fn transliterate(s: &str) -> (r: String)
    ensures
        r@ == transliterated(s@),
{
    unidecode::unidecode(s)
}

/// Relies on `str::to_lowercase`: the result depends on the characters alone.
#[verifier::external_body]
fn lowercase(s: &str) -> (r: String)
    ensures
        r@ == lowercased(s@),
{
    s.to_lowercase()
}

/// The key under which names are compared: transliterated, then lower-cased.
pub open spec fn name_key(name: Seq<char>) -> Seq<char> {
    lowercased(transliterated(name))
}

/// The comparison key of a name.
pub fn name_key_of(name: &String) -> (r: String)
    ensures
        r@ == name_key(name@),
{
    let t = transliterate(name.as_str());
    lowercase(t.as_str())
}

/// The length of a text in bytes, once encoded as UTF-8, as `str::len`
/// reports it.
pub open spec fn byte_len(s: Seq<char>) -> usize {
    encode_utf8(s).len() as usize
}

/// The views of a sequence of keys.
pub open spec fn keys_view(keys: Seq<String>) -> Seq<Seq<char>> {
    keys.map_values(|k: String| k@)
}

/// The comparison key of each stop (empty for an unnamed stop).
pub open spec fn stop_keys(stops: Seq<StopView>) -> Seq<Seq<char>> {
    stops.map_values(
        |s: StopView|
            match s.name {
                Some(n) => name_key(n),
                None => Seq::empty(),
            },
    )
}

/// Stops `i` and `j` have distinct ids, both have names, the names differ and
/// their keys agree.
pub open spec fn collides(stops: Seq<StopView>, keys: Seq<Seq<char>>, i: int, j: int) -> bool {
    &&& stops[i].id != stops[j].id
    &&& stops[i].name is Some
    &&& stops[j].name is Some
    &&& stops[i].name.unwrap() != stops[j].name.unwrap()
    &&& keys[i] == keys[j]
}

/// The id of stop `j` is already part of a recorded pair.
pub open spec fn involved(stops: Seq<StopView>, pairs: Seq<(usize, usize)>, j: int) -> bool {
    exists|k: int|
        0 <= k < pairs.len() && (stops[(#[trigger] pairs[k]).0 as int].id == stops[j].id
            || stops[pairs[k].1 as int].id == stops[j].id)
}

/// The pairs `(i, j)` found for stop `i` among stops `0..m`, in index order:
/// those that collide with `i` and are not yet part of a pair in `pairs`.
pub open spec fn targets(
    stops: Seq<StopView>,
    keys: Seq<Seq<char>>,
    pairs: Seq<(usize, usize)>,
    i: int,
    m: int,
) -> Seq<(usize, usize)>
    decreases m,
{
    if m <= 0 {
        Seq::empty()
    } else {
        let before = targets(stops, keys, pairs, i, m - 1);
        if collides(stops, keys, i, m - 1) && !involved(stops, pairs, m - 1) {
            before.push((i as usize, (m - 1) as usize))
        } else {
            before
        }
    }
}

/// The colliding pairs found after visiting stops `0..n` in turn.
pub open spec fn pairs_upto(stops: Seq<StopView>, keys: Seq<Seq<char>>, n: int) -> Seq<
    (usize, usize),
>
    decreases n,
{
    if n <= 0 {
        Seq::empty()
    } else {
        let before = pairs_upto(stops, keys, n - 1);
        before + targets(stops, keys, before, n - 1, stops.len() as int)
    }
}

/// All colliding pairs of one pass, in the order they are found.
pub open spec fn collision_pairs(stops: Seq<StopView>, keys: Seq<Seq<char>>) -> Seq<(usize, usize)> {
    pairs_upto(stops, keys, stops.len() as int)
}

/// A visit carrying the new name when it is a visit of stop `id`.
pub open spec fn renamed_visit(st: StopTimeView, id: Seq<char>, name: Seq<char>) -> StopTimeView {
    if st.stop_id == id {
        StopTimeView { time: st.time, stop_id: st.stop_id, name }
    } else {
        st
    }
}

/// A trip whose visits of stop `id` carry the new name.
pub open spec fn renamed_trip(t: TripView, id: Seq<char>, name: Seq<char>) -> TripView {
    TripView {
        id: t.id,
        service_id: t.service_id,
        route_id: t.route_id,
        stop_times: t.stop_times.map_values(|st: StopTimeView| renamed_visit(st, id, name)),
    }
}

/// Stop `x` and all visits of its id take `name`.
pub open spec fn rename(stops: Seq<StopView>, trips: Seq<TripView>, x: int, name: Seq<char>) -> (
    Seq<StopView>,
    Seq<TripView>,
) {
    let id = stops[x].id;
    (
        stops.update(x, StopView { id, name: Some(name) }),
        trips.map_values(|t: TripView| renamed_trip(t, id, name)),
    )
}

/// One pair unified: the stop with the shorter name takes the other's name;
/// on equal lengths the first stop takes the second's name.
pub open spec fn unify_pair(stops: Seq<StopView>, trips: Seq<TripView>, p: (usize, usize)) -> (
    Seq<StopView>,
    Seq<TripView>,
) {
    let (a, b) = (p.0 as int, p.1 as int);
    match (stops[a].name, stops[b].name) {
        (Some(na), Some(nb)) => if byte_len(na) > byte_len(nb) {
            rename(stops, trips, b, na)
        } else {
            rename(stops, trips, a, nb)
        },
        _ => (stops, trips),
    }
}

/// The first `n` pairs unified in order.
pub open spec fn unify_pairs(
    stops: Seq<StopView>,
    trips: Seq<TripView>,
    pairs: Seq<(usize, usize)>,
    n: int,
) -> (Seq<StopView>, Seq<TripView>)
    decreases n,
{
    if n <= 0 {
        (stops, trips)
    } else {
        let s = unify_pairs(stops, trips, pairs, n - 1);
        unify_pair(s.0, s.1, pairs[n - 1])
    }
}

/// Stops and trips after one unification pass with the given keys.
pub open spec fn uniformised(stops: Seq<StopView>, trips: Seq<TripView>, keys: Seq<Seq<char>>) -> (
    Seq<StopView>,
    Seq<TripView>,
) {
    let pairs = collision_pairs(stops, keys);
    unify_pairs(stops, trips, pairs, pairs.len() as int)
}

impl Timetable {
    /// Stop `x` takes `name`, and so does every visit of its id.
    fn rename_stop(&mut self, x: usize, name: &String)
        requires
            x < old(self).stops@.len(),
        ensures
            (stops_view(final(self).stops@), trips_view(final(self).trips@)) == rename(
                stops_view(old(self).stops@),
                trips_view(old(self).trips@),
                x as int,
                name@,
            ),
            final(self).stops@.len() == old(self).stops@.len(),
            final(self).today == old(self).today,
            final(self).current_time == old(self).current_time,
            final(self).calendar == old(self).calendar,
    {
        let ghost old_stops = stops_view(self.stops@);
        let ghost old_trips = trips_view(self.trips@);
        let id = self.stops[x].id.clone();
        self.stops[x].name = Some(name.clone());
        assert(stops_view(self.stops@) =~= old_stops.update(
            x as int,
            StopView { id: id@, name: Some(name@) },
        ));
        let mut t: usize = 0;
        while t < self.trips.len()
            invariant
                t <= self.trips@.len(),
                self.trips@.len() == old_trips.len(),
                forall|k: int| 0 <= k < t ==> (#[trigger] self.trips@[k])@ == renamed_trip(old_trips[k], id@, name@),
                forall|k: int| t <= k < self.trips@.len() ==> (#[trigger] self.trips@[k])@ == old_trips[k],
                stops_view(self.stops@) == old_stops.update(
                    x as int,
                    StopView { id: id@, name: Some(name@) },
                ),
                old_stops[x as int].id == id@,
                x < old_stops.len(),
                self.today == old(self).today,
                self.current_time == old(self).current_time,
                self.calendar == old(self).calendar,
            decreases self.trips@.len() - t,
        {
            let ghost before = self.trips@[t as int]@;
            let mut s: usize = 0;
            while s < self.trips[t].stop_times.len()
                invariant
                    t < self.trips@.len(),
                    s <= self.trips@[t as int].stop_times@.len(),
                    self.trips@.len() == old_trips.len(),
                    self.trips@[t as int]@.id == before.id,
                    self.trips@[t as int]@.service_id == before.service_id,
                    self.trips@[t as int]@.route_id == before.route_id,
                    self.trips@[t as int]@.stop_times.len() == before.stop_times.len(),
                    forall|q: int| 0 <= q < s ==> (#[trigger] self.trips@[t as int].stop_times@[q])@ == renamed_visit(before.stop_times[q], id@, name@),
                    forall|q: int| s <= q < before.stop_times.len() ==> (#[trigger] self.trips@[t as int].stop_times@[q])@ == before.stop_times[q],
                    forall|k: int| 0 <= k < t ==> (#[trigger] self.trips@[k])@ == renamed_trip(old_trips[k], id@, name@),
                    forall|k: int| t < k < self.trips@.len() ==> (#[trigger] self.trips@[k])@ == old_trips[k],
                    before == old_trips[t as int],
                    stops_view(self.stops@) == old_stops.update(
                        x as int,
                        StopView { id: id@, name: Some(name@) },
                    ),
                    self.today == old(self).today,
                    self.current_time == old(self).current_time,
                    self.calendar == old(self).calendar,
                decreases self.trips@[t as int].stop_times@.len() - s,
            {
                if self.trips[t].stop_times[s].stop_id == id {
                    self.trips[t].stop_times[s].name = name.clone();
                }
                s = s + 1;
            }
            assert(self.trips@[t as int]@.stop_times =~= before.stop_times.map_values(
                |st: StopTimeView| renamed_visit(st, id@, name@),
            ));
            t = t + 1;
        }
        assert(trips_view(self.trips@) =~= old_trips.map_values(
            |tr: TripView| renamed_trip(tr, id@, name@),
        ));
    }

    /// Unifies the names of stops `a` and `b`: the shorter one (in bytes)
    /// takes the longer; on equal lengths `a` takes the name of `b`.
    fn unify_stop_pair(&mut self, a: usize, b: usize)
        requires
            a < old(self).stops@.len(),
            b < old(self).stops@.len(),
        ensures
            (stops_view(final(self).stops@), trips_view(final(self).trips@)) == unify_pair(
                stops_view(old(self).stops@),
                trips_view(old(self).trips@),
                (a, b),
            ),
            final(self).stops@.len() == old(self).stops@.len(),
            final(self).today == old(self).today,
            final(self).current_time == old(self).current_time,
            final(self).calendar == old(self).calendar,
    {
        let (na, nb) = match (&self.stops[a].name, &self.stops[b].name) {
            (Some(na), Some(nb)) => (na.clone(), nb.clone()),
            _ => {
                return ;
            },
        };
        let ghost sv = stops_view(self.stops@);
        assert(sv[a as int].name == Some(na@));
        assert(sv[b as int].name == Some(nb@));
        if na.as_str().len() > nb.as_str().len() {
            self.rename_stop(b, &na);
        } else {
            self.rename_stop(a, &nb);
        }
    }

    /// Unifies the names of all stops that collide under the given keys
    /// (`keys[i]` is the key of stop `i`), then writes each new name into the
    /// visits of the renamed stop.
    pub fn uniformise_with_keys(&mut self, keys: &Vec<String>)
        requires
            keys@.len() == old(self).stops@.len(),
        ensures
            (stops_view(final(self).stops@), trips_view(final(self).trips@)) == uniformised(
                stops_view(old(self).stops@),
                trips_view(old(self).trips@),
                keys_view(keys@),
            ),
            final(self).today == old(self).today,
            final(self).current_time == old(self).current_time,
            final(self).calendar == old(self).calendar,
    {
        let pairs = find_collisions(&self.stops, keys);
        let ghost stops0 = stops_view(self.stops@);
        let ghost trips0 = trips_view(self.trips@);
        let mut k: usize = 0;
        while k < pairs.len()
            invariant
                k <= pairs@.len(),
                pairs@ == collision_pairs(stops0, keys_view(keys@)),
                forall|q: int| 0 <= q < pairs@.len() ==> (#[trigger] pairs@[q]).0 < stops0.len() && pairs@[q].1 < stops0.len(),
                self.stops@.len() == stops0.len(),
                (stops_view(self.stops@), trips_view(self.trips@)) == unify_pairs(stops0, trips0, pairs@, k as int),
                self.today == old(self).today,
                self.current_time == old(self).current_time,
                self.calendar == old(self).calendar,
            decreases pairs@.len() - k,
        {
            let (a, b) = pairs[k];
            self.unify_stop_pair(a, b);
            k = k + 1;
        }
    }
}

impl Timetable {
    /// Unifies the spellings of stop names that differ only by diacritics or
    /// case. Collisions are found in one pass over the stops; a stop already
    /// part of a found pair is not taken again as the partner of another
    /// stop. In each pair the shorter name (in bytes) is replaced by the
    /// longer, on the stop and on every visit of it; on equal lengths the
    /// first stop of the pair takes the second's name. Stop ids never change.
    pub fn uniformise_stop_names(&mut self)
        ensures
            (stops_view(final(self).stops@), trips_view(final(self).trips@)) == uniformised(
                stops_view(old(self).stops@),
                trips_view(old(self).trips@),
                stop_keys(stops_view(old(self).stops@)),
            ),
            final(self).today == old(self).today,
            final(self).current_time == old(self).current_time,
            final(self).calendar == old(self).calendar,
    {
        let keys = stop_name_keys(&self.stops);
        self.uniformise_with_keys(&keys);
    }

    /// The same unification as `uniformise_stop_names`.
    pub fn deduplicate_stops(&mut self)
        ensures
            (stops_view(final(self).stops@), trips_view(final(self).trips@)) == uniformised(
                stops_view(old(self).stops@),
                trips_view(old(self).trips@),
                stop_keys(stops_view(old(self).stops@)),
            ),
            final(self).today == old(self).today,
            final(self).current_time == old(self).current_time,
            final(self).calendar == old(self).calendar,
    {
        self.uniformise_stop_names();
    }
}

/// The comparison key of every stop, the empty text for an unnamed one.
fn stop_name_keys(stops: &Vec<Stop>) -> (r: Vec<String>)
    ensures
        keys_view(r@) == stop_keys(stops_view(stops@)),
        r@.len() == stops@.len(),
{
    let mut keys: Vec<String> = Vec::new();
    let mut i: usize = 0;
    while i < stops.len()
        invariant
            i <= stops@.len(),
            keys@.len() == i,
            forall|q: int| 0 <= q < i ==> (#[trigger] keys@[q])@ == stop_keys(stops_view(stops@))[q],
        decreases stops@.len() - i,
    {
        match &stops[i].name {
            Some(name) => keys.push(name_key_of(name)),
            None => keys.push(String::new()),
        }
        i = i + 1;
    }
    assert(keys_view(keys@) =~= stop_keys(stops_view(stops@)));
    keys
}

/// Whether the id of stop `j` already appears in one of `pairs`.
fn is_involved(stops: &Vec<Stop>, pairs: &Vec<(usize, usize)>, j: usize) -> (r: bool)
    requires
        j < stops@.len(),
        forall|q: int| 0 <= q < pairs@.len() ==> (#[trigger] pairs@[q]).0 < stops@.len() && pairs@[q].1 < stops@.len(),
    ensures
        r == involved(stops_view(stops@), pairs@, j as int),
{
    let mut k: usize = 0;
    while k < pairs.len()
        invariant
            j < stops@.len(),
            k <= pairs@.len(),
            forall|q: int| 0 <= q < pairs@.len() ==> (#[trigger] pairs@[q]).0 < stops@.len() && pairs@[q].1 < stops@.len(),
            forall|q: int| 0 <= q < k ==> !(stops_view(stops@)[(#[trigger] pairs@[q]).0 as int].id == stops_view(stops@)[j as int].id
                || stops_view(stops@)[pairs@[q].1 as int].id == stops_view(stops@)[j as int].id),
        decreases pairs@.len() - k,
    {
        let (a, b) = pairs[k];
        if stops[a].id == stops[j].id || stops[b].id == stops[j].id {
            assert(stops_view(stops@)[pairs@[k as int].0 as int].id == stops_view(stops@)[j as int].id
                || stops_view(stops@)[pairs@[k as int].1 as int].id == stops_view(stops@)[j as int].id);
            return true;
        }
        k = k + 1;
    }
    false
}

/// Whether stops `i` and `j` collide under the given keys.
fn is_collision(stops: &Vec<Stop>, keys: &Vec<String>, i: usize, j: usize) -> (r: bool)
    requires
        i < stops@.len(),
        j < stops@.len(),
        keys@.len() == stops@.len(),
    ensures
        r == collides(stops_view(stops@), keys_view(keys@), i as int, j as int),
{
    if stops[i].id == stops[j].id {
        return false;
    }
    match (&stops[i].name, &stops[j].name) {
        (Some(ni), Some(nj)) => *ni != *nj && keys[i] == keys[j],
        _ => false,
    }
}

/// The colliding pairs of one pass over the stops, in the order found.
fn find_collisions(stops: &Vec<Stop>, keys: &Vec<String>) -> (r: Vec<(usize, usize)>)
    requires
        keys@.len() == stops@.len(),
    ensures
        r@ == collision_pairs(stops_view(stops@), keys_view(keys@)),
        forall|q: int| 0 <= q < r@.len() ==> (#[trigger] r@[q]).0 < stops@.len() && r@[q].1 < stops@.len(),
{
    let ghost sv = stops_view(stops@);
    let ghost kv = keys_view(keys@);
    let n = stops.len();
    let mut pairs: Vec<(usize, usize)> = Vec::new();
    let mut i: usize = 0;
    while i < n
        invariant
            n == stops@.len(),
            keys@.len() == n,
            i <= n,
            sv == stops_view(stops@),
            kv == keys_view(keys@),
            pairs@ == pairs_upto(sv, kv, i as int),
            forall|q: int| 0 <= q < pairs@.len() ==> (#[trigger] pairs@[q]).0 < n && pairs@[q].1 < n,
        decreases n - i,
    {
        let mut found: Vec<(usize, usize)> = Vec::new();
        let mut j: usize = 0;
        while j < n
            invariant
                n == stops@.len(),
                keys@.len() == n,
                i < n,
                j <= n,
                sv == stops_view(stops@),
                kv == keys_view(keys@),
                found@ == targets(sv, kv, pairs@, i as int, j as int),
                forall|q: int| 0 <= q < pairs@.len() ==> (#[trigger] pairs@[q]).0 < n && pairs@[q].1 < n,
                forall|q: int| 0 <= q < found@.len() ==> (#[trigger] found@[q]).0 < n && found@[q].1 < n,
            decreases n - j,
        {
            if is_collision(stops, keys, i, j) && !is_involved(stops, &pairs, j) {
                found.push((i, j));
            }
            j = j + 1;
        }
        let ghost before = pairs@;
        let mut q: usize = 0;
        while q < found.len()
            invariant
                q <= found@.len(),
                pairs@ == before + found@.take(q as int),
                forall|r: int| 0 <= r < before.len() ==> (#[trigger] before[r]).0 < n && before[r].1 < n,
                forall|r: int| 0 <= r < found@.len() ==> (#[trigger] found@[r]).0 < n && found@[r].1 < n,
                forall|r: int| 0 <= r < pairs@.len() ==> (#[trigger] pairs@[r]).0 < n && pairs@[r].1 < n,
            decreases found@.len() - q,
        {
            pairs.push(found[q]);
            assert(found@.take(q + 1) =~= found@.take(q as int).push(found@[q as int]));
            q = q + 1;
        }
        assert(found@.take(found@.len() as int) =~= found@);
        i = i + 1;
    }
    pairs
}

} // verus!
