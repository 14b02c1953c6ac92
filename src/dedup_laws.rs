//! Laws of stop-name unification: stops are never merged, a single pass
//! leaves no collision when no comparison key is shared by three named stops,
//! and then a second pass renames nothing.
use crate::dedup::{
    byte_len, collides, collision_pairs, involved, pairs_upto, stop_keys, targets, unify_pairs,
    uniformised,
};
use crate::timetable::{StopView, TripView};
use vstd::prelude::*;

verus! {

/// Stop `i` belongs to pair `p`.
pub open spec fn in_pair(p: (usize, usize), i: int) -> bool {
    p.0 as int == i || p.1 as int == i
}

/// The two pairs have no stop in common.
pub open spec fn disjoint_pairs(p: (usize, usize), q: (usize, usize)) -> bool {
    p.0 != q.0 && p.0 != q.1 && p.1 != q.0 && p.1 != q.1
}

/// No two stops share an id.
pub open spec fn unique_ids(stops: Seq<StopView>) -> bool {
    forall|i: int, j: int| 0 <= i < j < stops.len() ==> stops[i].id != stops[j].id
}

/// No three named stops share a key.
pub open spec fn at_most_two_per_key(stops: Seq<StopView>, keys: Seq<Seq<char>>) -> bool {
    forall|i: int, j: int, k: int|
        0 <= i < j < k < stops.len() && stops[i].name is Some && stops[j].name is Some
            && stops[k].name is Some ==> !(keys[i] == keys[j] && keys[j] == keys[k])
}

/// No two stops collide.
pub open spec fn collision_free(stops: Seq<StopView>, keys: Seq<Seq<char>>) -> bool {
    forall|i: int, j: int| 0 <= i < stops.len() && 0 <= j < stops.len() ==> !collides(stops, keys, i, j)
}

/// A stop collides with at most one other.
proof fn lemma_one_partner(stops: Seq<StopView>, keys: Seq<Seq<char>>, i: int, j: int, q: int)
    requires
        at_most_two_per_key(stops, keys),
        keys.len() == stops.len(),
        0 <= i < stops.len(),
        0 <= j < stops.len(),
        0 <= q < stops.len(),
        collides(stops, keys, i, j),
        collides(stops, keys, i, q),
    ensures
        j == q,
{
    if j != q {
        assert(i != j && i != q);
        if i < j && j < q {
            assert(!(keys[i] == keys[j] && keys[j] == keys[q]));
        } else if i < q && q < j {
            assert(!(keys[i] == keys[q] && keys[q] == keys[j]));
        } else if j < i && i < q {
            assert(!(keys[j] == keys[i] && keys[i] == keys[q]));
        } else if q < i && i < j {
            assert(!(keys[q] == keys[i] && keys[i] == keys[j]));
        } else if j < q && q < i {
            assert(!(keys[j] == keys[q] && keys[q] == keys[i]));
        } else {
            assert(!(keys[q] == keys[j] && keys[j] == keys[i]));
        }
    }
}

/// What a collision pass has found after visiting stops `0..n`, when ids
/// are unique and no key is shared by three named stops: colliding pairs
/// `(a, b)` with `a < b` and `a < n`, no stop in two pairs, and every
/// collision of a visited stop found.
pub open spec fn pairs_found_well(
    stops: Seq<StopView>,
    keys: Seq<Seq<char>>,
    pairs: Seq<(usize, usize)>,
    n: int,
) -> bool {
    &&& forall|k: int| 0 <= k < pairs.len() ==> (#[trigger] pairs[k]).0 < pairs[k].1 && (pairs[k].0 as int) < n
        && (pairs[k].1 as int) < stops.len() && collides(stops, keys, pairs[k].0 as int, pairs[k].1 as int)
    &&& forall|k: int, l: int| 0 <= k < l < pairs.len() ==> disjoint_pairs(#[trigger] pairs[k], #[trigger] pairs[l])
    &&& forall|i: int, j: int| 0 <= i < n && 0 <= j < stops.len() && #[trigger] collides(stops, keys, i, j) ==> exists|k: int|
        0 <= k < pairs.len() && in_pair(#[trigger] pairs[k], i) && in_pair(pairs[k], j)
}

/// The targets of stop `n` among stops `0..m`: its one partner, when that
/// partner is below `m` and not yet in a pair.
proof fn lemma_targets(
    stops: Seq<StopView>,
    keys: Seq<Seq<char>>,
    pairs: Seq<(usize, usize)>,
    n: int,
    m: int,
)
    requires
        unique_ids(stops),
        at_most_two_per_key(stops, keys),
        keys.len() == stops.len(),
        stops.len() <= usize::MAX,
        0 <= n < stops.len(),
        0 <= m <= stops.len(),
        forall|k: int| 0 <= k < pairs.len() ==> (#[trigger] pairs[k]).0 < stops.len() && pairs[k].1 < stops.len(),
    ensures
        targets(stops, keys, pairs, n, m).len() <= 1,
        forall|k: int| 0 <= k < targets(stops, keys, pairs, n, m).len() ==> {
            let t = #[trigger] targets(stops, keys, pairs, n, m)[k];
            t.0 as int == n && (t.1 as int) < m && collides(stops, keys, n, t.1 as int) && !involved(stops, pairs, t.1 as int)
        },
        forall|j: int| 0 <= j < m && collides(stops, keys, n, j) && !involved(stops, pairs, j) ==> targets(stops, keys, pairs, n, m).len() == 1,
    decreases m,
{
    if m > 0 {
        lemma_targets(stops, keys, pairs, n, m - 1);
        let before = targets(stops, keys, pairs, n, m - 1);
        if collides(stops, keys, n, m - 1) && !involved(stops, pairs, m - 1) {
            if before.len() == 1 {
                lemma_one_partner(stops, keys, n, before[0].1 as int, m - 1);
            }
        }
        assert forall|j: int| 0 <= j < m && collides(stops, keys, n, j) && !involved(stops, pairs, j) implies targets(stops, keys, pairs, n, m).len() == 1 by {
            if j < m - 1 {
                if collides(stops, keys, n, m - 1) && !involved(stops, pairs, m - 1) {
                    lemma_one_partner(stops, keys, n, j, m - 1);
                }
            }
        }
    }
}

/// Three distinct named stops never share a key.
proof fn lemma_no_three(stops: Seq<StopView>, keys: Seq<Seq<char>>, a: int, b: int, c: int)
    requires
        at_most_two_per_key(stops, keys),
        0 <= a < stops.len(),
        0 <= b < stops.len(),
        0 <= c < stops.len(),
        a != b && b != c && a != c,
        stops[a].name is Some && stops[b].name is Some && stops[c].name is Some,
    ensures
        !(keys[a] == keys[b] && keys[b] == keys[c]),
{
    if a < b && b < c {
        assert(!(keys[a] == keys[b] && keys[b] == keys[c]));
    } else if a < c && c < b {
        assert(!(keys[a] == keys[c] && keys[c] == keys[b]));
    } else if b < a && a < c {
        assert(!(keys[b] == keys[a] && keys[a] == keys[c]));
    } else if b < c && c < a {
        assert(!(keys[b] == keys[c] && keys[c] == keys[a]));
    } else if c < a && a < b {
        assert(!(keys[c] == keys[a] && keys[a] == keys[b]));
    } else {
        assert(!(keys[c] == keys[b] && keys[b] == keys[a]));
    }
}

/// With unique ids, a stop's id is in a pair exactly when the stop is.
proof fn lemma_involved_by_index(stops: Seq<StopView>, pairs: Seq<(usize, usize)>, j: int)
    requires
        unique_ids(stops),
        0 <= j < stops.len(),
        forall|k: int| 0 <= k < pairs.len() ==> (#[trigger] pairs[k]).0 < stops.len() && pairs[k].1 < stops.len(),
    ensures
        involved(stops, pairs, j) <==> exists|k: int| 0 <= k < pairs.len() && in_pair(#[trigger] pairs[k], j),
{
    if involved(stops, pairs, j) {
        let k = choose|k: int|
            0 <= k < pairs.len() && (stops[(#[trigger] pairs[k]).0 as int].id == stops[j].id
                || stops[pairs[k].1 as int].id == stops[j].id);
        assert(in_pair(pairs[k], j));
    }
    if exists|k: int| 0 <= k < pairs.len() && in_pair(#[trigger] pairs[k], j) {
        let k = choose|k: int| 0 <= k < pairs.len() && in_pair(#[trigger] pairs[k], j);
        assert(stops[pairs[k].0 as int].id == stops[j].id || stops[pairs[k].1 as int].id == stops[j].id);
    }
}

proof fn lemma_pairs_found_well(stops: Seq<StopView>, keys: Seq<Seq<char>>, n: int)
    requires
        unique_ids(stops),
        at_most_two_per_key(stops, keys),
        keys.len() == stops.len(),
        stops.len() <= usize::MAX,
        0 <= n <= stops.len(),
    ensures
        pairs_found_well(stops, keys, pairs_upto(stops, keys, n), n),
    decreases n,
{
    if n > 0 {
        lemma_pairs_found_well(stops, keys, n - 1);
        let i = n - 1;
        let p = pairs_upto(stops, keys, n - 1);
        let t = targets(stops, keys, p, i, stops.len() as int);
        let q = pairs_upto(stops, keys, n);
        assert(q == p + t);
        lemma_targets(stops, keys, p, i, stops.len() as int);
        if t.len() == 1 {
            let j = t[0].1 as int;
            lemma_involved_by_index(stops, p, j);
            // the partner comes after `i`
            assert(collides(stops, keys, i, j) && !involved(stops, p, j));
            if j < i {
                assert(collides(stops, keys, j, i));
                let k = choose|k: int| 0 <= k < p.len() && in_pair(#[trigger] p[k], j) && in_pair(p[k], i);
                assert(involved(stops, p, j));
            }
            // `i` is in no earlier pair
            assert forall|k: int| 0 <= k < p.len() implies !in_pair(#[trigger] p[k], i) by {
                if in_pair(p[k], i) {
                    let other = if p[k].0 as int == i { p[k].1 as int } else { p[k].0 as int };
                    lemma_one_partner(stops, keys, i, j, other);
                }
            }
        }
        assert forall|k: int| 0 <= k < q.len() implies (#[trigger] q[k]).0 < q[k].1 && (q[k].0 as int) < n
            && (q[k].1 as int) < stops.len() && collides(stops, keys, q[k].0 as int, q[k].1 as int) by {
            if k >= p.len() {
                assert(q[k] == t[k - p.len()]);
            }
        }
        assert forall|k: int, l: int| 0 <= k < l < q.len() implies disjoint_pairs(#[trigger] q[k], #[trigger] q[l]) by {
            if l >= p.len() {
                assert(q[l] == t[0]);
                assert(k < p.len());
                assert(q[k] == p[k]);
                assert(!in_pair(p[k], t[0].1 as int));
                assert(!in_pair(p[k], i));
            } else {
                assert(q[k] == p[k] && q[l] == p[l]);
            }
        }
        assert forall|a: int, b: int| 0 <= a < n && 0 <= b < stops.len() && #[trigger] collides(stops, keys, a, b) implies exists|k: int|
            0 <= k < q.len() && in_pair(#[trigger] q[k], a) && in_pair(q[k], b) by {
            if a < i {
                let k = choose|k: int| 0 <= k < p.len() && in_pair(#[trigger] p[k], a) && in_pair(p[k], b);
                assert(q[k] == p[k]);
            } else {
                lemma_involved_by_index(stops, p, b);
                if involved(stops, p, b) {
                    let k = choose|k: int| 0 <= k < p.len() && in_pair(#[trigger] p[k], b);
                    let other = if p[k].0 as int == b { p[k].1 as int } else { p[k].0 as int };
                    assert(collides(stops, keys, b, other));
                    lemma_one_partner(stops, keys, b, a, other);
                    assert(q[k] == p[k]);
                } else {
                    let j = t[0].1 as int;
                    lemma_one_partner(stops, keys, a, b, j);
                    assert(q[p.len() as int] == t[0]);
                }
            }
        }
    }
}

/// Unifying pairwise disjoint colliding pairs in turn: each unified pair
/// ends with one name, stops outside the pairs keep theirs, ids and keys
/// never change.
proof fn lemma_unify_disjoint(
    stops: Seq<StopView>,
    trips: Seq<TripView>,
    pairs: Seq<(usize, usize)>,
    k: int,
)
    requires
        0 <= k <= pairs.len(),
        forall|l: int| 0 <= l < pairs.len() ==> (#[trigger] pairs[l]).0 < stops.len() && pairs[l].1 < stops.len()
            && collides(stops, stop_keys(stops), pairs[l].0 as int, pairs[l].1 as int),
        forall|l: int, m: int| 0 <= l < m < pairs.len() ==> disjoint_pairs(#[trigger] pairs[l], #[trigger] pairs[m]),
    ensures
        ({
            let after = unify_pairs(stops, trips, pairs, k).0;
            &&& after.len() == stops.len()
            &&& forall|i: int| 0 <= i < stops.len() ==> (#[trigger] after[i]).id == stops[i].id
                && (after[i].name is Some <==> stops[i].name is Some)
            &&& forall|i: int| 0 <= i < stops.len() && (forall|l: int| 0 <= l < k ==> !in_pair(#[trigger] pairs[l], i))
                ==> (#[trigger] after[i]).name == stops[i].name
            &&& forall|l: int| 0 <= l < k ==> after[(#[trigger] pairs[l]).0 as int].name == after[pairs[l].1 as int].name
            &&& stop_keys(after) == stop_keys(stops)
        }),
    decreases k,
{
    if k > 0 {
        lemma_unify_disjoint(stops, trips, pairs, k - 1);
        let prev = unify_pairs(stops, trips, pairs, k - 1);
        let before = prev.0;
        let after = unify_pairs(stops, trips, pairs, k).0;
        let (a, b) = (pairs[k - 1].0 as int, pairs[k - 1].1 as int);
        assert forall|l: int| 0 <= l < k - 1 implies !in_pair(#[trigger] pairs[l], a) && !in_pair(pairs[l], b) by {
            assert(disjoint_pairs(pairs[l], pairs[k - 1]));
        }
        assert(before[a].name == stops[a].name);
        assert(before[b].name == stops[b].name);
        let na = stops[a].name.unwrap();
        let nb = stops[b].name.unwrap();
        let x = if byte_len(na) > byte_len(nb) { b } else { a };
        let nx = if byte_len(na) > byte_len(nb) { na } else { nb };
        assert(after == before.update(x, StopView { id: before[x].id, name: Some(nx) }));
        assert(stop_keys(after) =~= stop_keys(stops)) by {
            assert(stop_keys(stops)[a] == stop_keys(stops)[b]);
        }
        assert forall|l: int| 0 <= l < k implies after[(#[trigger] pairs[l]).0 as int].name == after[pairs[l].1 as int].name by {
            if l < k - 1 {
                assert(disjoint_pairs(pairs[l], pairs[k - 1]));
            }
        }
        assert forall|i: int| 0 <= i < stops.len() && (forall|l: int| 0 <= l < k ==> !in_pair(#[trigger] pairs[l], i))
                implies (#[trigger] after[i]).name == stops[i].name by {
            assert(!in_pair(pairs[k - 1], i));
        }
    }
}

/// A pass over stops with no collision finds no pair.
proof fn lemma_no_pairs(stops: Seq<StopView>, keys: Seq<Seq<char>>, n: int)
    requires
        collision_free(stops, keys),
        0 <= n <= stops.len(),
    ensures
        pairs_upto(stops, keys, n).len() == 0,
    decreases n,
{
    if n > 0 {
        lemma_no_pairs(stops, keys, n - 1);
        lemma_no_targets(stops, keys, pairs_upto(stops, keys, n - 1), n - 1, stops.len() as int);
    }
}

proof fn lemma_no_targets(stops: Seq<StopView>, keys: Seq<Seq<char>>, pairs: Seq<(usize, usize)>, i: int, m: int)
    requires
        collision_free(stops, keys),
        0 <= i < stops.len(),
        0 <= m <= stops.len(),
    ensures
        targets(stops, keys, pairs, i, m).len() == 0,
    decreases m,
{
    if m > 0 {
        lemma_no_targets(stops, keys, pairs, i, m - 1);
    }
}

/// Every pair found by a pass names two stops.
proof fn lemma_pairs_in_range(stops: Seq<StopView>, keys: Seq<Seq<char>>, n: int)
    requires
        0 <= n <= stops.len(),
        stops.len() <= usize::MAX,
    ensures
        forall|k: int| 0 <= k < pairs_upto(stops, keys, n).len() ==> (#[trigger] pairs_upto(stops, keys, n)[k]).0 < stops.len()
            && pairs_upto(stops, keys, n)[k].1 < stops.len(),
    decreases n,
{
    if n > 0 {
        lemma_pairs_in_range(stops, keys, n - 1);
        let p = pairs_upto(stops, keys, n - 1);
        lemma_targets_in_range(stops, keys, p, n - 1, stops.len() as int);
        let q = pairs_upto(stops, keys, n);
        assert forall|k: int| 0 <= k < q.len() implies (#[trigger] q[k]).0 < stops.len() && q[k].1 < stops.len() by {
            if k < p.len() {
                assert(q[k] == p[k]);
            }
        }
    }
}

proof fn lemma_targets_in_range(stops: Seq<StopView>, keys: Seq<Seq<char>>, pairs: Seq<(usize, usize)>, i: int, m: int)
    requires
        0 <= i < stops.len(),
        0 <= m <= stops.len(),
        stops.len() <= usize::MAX,
    ensures
        forall|k: int| 0 <= k < targets(stops, keys, pairs, i, m).len() ==> (#[trigger] targets(stops, keys, pairs, i, m)[k]).0 == i
            && (targets(stops, keys, pairs, i, m)[k].1 as int) < m,
    decreases m,
{
    if m > 0 {
        lemma_targets_in_range(stops, keys, pairs, i, m - 1);
        let before = targets(stops, keys, pairs, i, m - 1);
        let t = targets(stops, keys, pairs, i, m);
        assert forall|k: int| 0 <= k < t.len() implies (#[trigger] t[k]).0 == i && (t[k].1 as int) < m by {
            if k < before.len() {
                assert(t[k] == before[k]);
            }
        }
    }
}

/// Unifying pairs of stops keeps the number of stops and each stop's id.
proof fn lemma_unify_keeps_ids(
    stops: Seq<StopView>,
    trips: Seq<TripView>,
    pairs: Seq<(usize, usize)>,
    k: int,
)
    requires
        0 <= k <= pairs.len(),
        forall|l: int| 0 <= l < pairs.len() ==> (#[trigger] pairs[l]).0 < stops.len() && pairs[l].1 < stops.len(),
    ensures
        unify_pairs(stops, trips, pairs, k).0.len() == stops.len(),
        forall|i: int| 0 <= i < stops.len() ==> (#[trigger] unify_pairs(stops, trips, pairs, k).0[i]).id == stops[i].id,
    decreases k,
{
    if k > 0 {
        lemma_unify_keeps_ids(stops, trips, pairs, k - 1);
    }
}

/// Unifying stop names never merges stops: their number and their ids stay
/// as they were; only names change.
pub proof fn lemma_uniformise_keeps_ids(stops: Seq<StopView>, trips: Seq<TripView>, keys: Seq<Seq<char>>)
    requires
        stops.len() <= usize::MAX,
    ensures
        uniformised(stops, trips, keys).0.len() == stops.len(),
        forall|i: int| 0 <= i < stops.len() ==> (#[trigger] uniformised(stops, trips, keys).0[i]).id == stops[i].id,
{
    lemma_pairs_in_range(stops, keys, stops.len() as int);
    let pairs = collision_pairs(stops, keys);
    lemma_unify_keeps_ids(stops, trips, pairs, pairs.len() as int);
}

/// After one unification, when stop ids are unique and no comparison key is
/// shared by three named stops, no two stops collide any more, and every
/// stop keeps its comparison key.
pub proof fn lemma_uniformise_resolves_collisions(stops: Seq<StopView>, trips: Seq<TripView>)
    requires
        unique_ids(stops),
        at_most_two_per_key(stops, stop_keys(stops)),
        stops.len() <= usize::MAX,
    ensures
        ({
            let after = uniformised(stops, trips, stop_keys(stops)).0;
            &&& stop_keys(after) == stop_keys(stops)
            &&& collision_free(after, stop_keys(after))
        }),
{
    let keys = stop_keys(stops);
    let n = stops.len() as int;
    lemma_pairs_found_well(stops, keys, n);
    let pairs = collision_pairs(stops, keys);
    lemma_unify_disjoint(stops, trips, pairs, pairs.len() as int);
    let once = uniformised(stops, trips, keys);
    let after = once.0;
    assert forall|i: int, j: int| 0 <= i < after.len() && 0 <= j < after.len() implies !collides(after, keys, i, j) by {
        if collides(after, keys, i, j) {
            if stops[i].name != stops[j].name {
                assert(collides(stops, keys, i, j));
                let l = choose|l: int| 0 <= l < pairs.len() && in_pair(#[trigger] pairs[l], i) && in_pair(pairs[l], j);
                assert(after[pairs[l].0 as int].name == after[pairs[l].1 as int].name);
            } else {
                if exists|l: int| 0 <= l < pairs.len() && in_pair(#[trigger] pairs[l], i) {
                    let l = choose|l: int| 0 <= l < pairs.len() && in_pair(#[trigger] pairs[l], i);
                    let q = if pairs[l].0 as int == i { pairs[l].1 as int } else { pairs[l].0 as int };
                    assert(collides(stops, keys, pairs[l].0 as int, pairs[l].1 as int));
                    assert(q != j) by {
                        if q == j {
                            assert(after[pairs[l].0 as int].name == after[pairs[l].1 as int].name);
                        }
                    }
                    lemma_no_three(stops, keys, i, j, q);
                } else if exists|l: int| 0 <= l < pairs.len() && in_pair(#[trigger] pairs[l], j) {
                    let l = choose|l: int| 0 <= l < pairs.len() && in_pair(#[trigger] pairs[l], j);
                    let q = if pairs[l].0 as int == j { pairs[l].1 as int } else { pairs[l].0 as int };
                    assert(collides(stops, keys, pairs[l].0 as int, pairs[l].1 as int));
                    assert(q != i) by {
                        if q == i {
                            assert(after[pairs[l].0 as int].name == after[pairs[l].1 as int].name);
                        }
                    }
                    lemma_no_three(stops, keys, i, j, q);
                } else {
                    assert(after[i].name == stops[i].name);
                    assert(after[j].name == stops[j].name);
                }
            }
        }
    }
}

/// Unification renames nothing when no two stops collide.
pub proof fn lemma_uniformise_collision_free(stops: Seq<StopView>, trips: Seq<TripView>, keys: Seq<Seq<char>>)
    requires
        collision_free(stops, keys),
    ensures
        uniformised(stops, trips, keys) == (stops, trips),
{
    lemma_no_pairs(stops, keys, stops.len() as int);
}

/// Unifying stop names a second time right after a first changes nothing,
/// when stop ids are unique and no comparison key is shared by three named
/// stops.
pub proof fn lemma_uniformise_idempotent(stops: Seq<StopView>, trips: Seq<TripView>)
    requires
        unique_ids(stops),
        at_most_two_per_key(stops, stop_keys(stops)),
        stops.len() <= usize::MAX,
    ensures
        ({
            let once = uniformised(stops, trips, stop_keys(stops));
            uniformised(once.0, once.1, stop_keys(once.0)) == once
        }),
{
    lemma_uniformise_resolves_collisions(stops, trips);
    let once = uniformised(stops, trips, stop_keys(stops));
    lemma_uniformise_collision_free(once.0, once.1, stop_keys(once.0));
}

} // verus!
