use vstd::prelude::*;
use crate::catalog::{catalog_wf, key_lt, Catalog, Snapshot, SnapshotKey};

verus! {

/// The version-weighted distance from key `a` to key `b`: the major
/// difference; the minor difference where the majors agree, else 0; the
/// patch difference where major and minor agree, else 0; and the instant
/// difference. Each field is the later key's component minus the earlier
/// one's.
pub open spec fn key_distance(a: SnapshotKey, b: SnapshotKey) -> (int, int, int, int) {
    (
        b.major - a.major,
        if a.major == b.major {
            b.minor - a.minor
        } else {
            0
        },
        if a.major == b.major && a.minor == b.minor {
            b.patch - a.patch
        } else {
            0
        },
        b.ts - a.ts,
    )
}

/// Strict lexicographic order on distances.
pub open spec fn dist_lt(x: (int, int, int, int), y: (int, int, int, int)) -> bool {
    ||| x.0 < y.0
    ||| (x.0 == y.0 && x.1 < y.1)
    ||| (x.0 == y.0 && x.1 == y.1 && x.2 < y.2)
    ||| (x.0 == y.0 && x.1 == y.1 && x.2 == y.2 && x.3 < y.3)
}

/// The comparison weight of the window around interior entry `i`: the two
/// distances to its neighbours, the smaller one first.
pub open spec fn window_key(s: Seq<Snapshot>, i: int) -> (
    (int, int, int, int),
    (int, int, int, int),
)
    recommends
        1 <= i < s.len() - 1,
{
    let d1 = key_distance(s[i - 1].key, s[i].key);
    let d2 = key_distance(s[i].key, s[i + 1].key);
    if dist_lt(d2, d1) {
        (d2, d1)
    } else {
        (d1, d2)
    }
}

/// Strict lexicographic order on window weights.
pub open spec fn wkey_lt(
    x: ((int, int, int, int), (int, int, int, int)),
    y: ((int, int, int, int), (int, int, int, int)),
) -> bool {
    dist_lt(x.0, y.0) || (x.0 == y.0 && dist_lt(x.1, y.1))
}

/// Non-strict order on window weights.
pub open spec fn wkey_le(
    x: ((int, int, int, int), (int, int, int, int)),
    y: ((int, int, int, int), (int, int, int, int)),
) -> bool {
    x == y || wkey_lt(x, y)
}

/// `b` is the index the sliding window selects: an interior index whose
/// window weight no window beats, the earliest such index winning ties.
pub open spec fn is_victim_index(s: Seq<Snapshot>, b: int) -> bool {
    &&& 1 <= b < s.len() - 1
    &&& forall|i: int| 1 <= i < s.len() - 1 ==> wkey_le(window_key(s, b), #[trigger] window_key(s, i))
    &&& forall|i: int| 1 <= i < b ==> wkey_lt(window_key(s, b), #[trigger] window_key(s, i))
}

/// `v` is the index the whole policy deletes: the smaller key of an exact
/// pair, the selected window's middle entry among three or more.
pub open spec fn is_policy_victim(s: Seq<Snapshot>, v: int) -> bool {
    (s.len() == 2 && v == 0) || (s.len() >= 3 && is_victim_index(s, v))
}

/// The policy picks at most one victim: two indices both satisfying the
/// selection are the same index.
pub proof fn lemma_policy_victim_unique(s: Seq<Snapshot>, v1: int, v2: int)
    requires
        is_policy_victim(s, v1),
        is_policy_victim(s, v2),
    ensures
        v1 == v2,
{
    if s.len() >= 3 && v1 != v2 {
        if v1 < v2 {
            assert(wkey_lt(window_key(s, v2), window_key(s, v1)));
            assert(wkey_le(window_key(s, v1), window_key(s, v2)));
        } else {
            assert(wkey_lt(window_key(s, v1), window_key(s, v2)));
            assert(wkey_le(window_key(s, v2), window_key(s, v1)));
        }
    }
}

/// Of exactly two snapshots, the victim - the entry at index 0 of the
/// ordered catalog - carries the smaller key: the most advanced, most
/// recent of the pair is kept.
pub proof fn lemma_pair_victim_has_smaller_key(c: Catalog)
    requires
        catalog_wf(c),
        c.entries@.len() == 2,
    ensures
        key_lt(c.entries@[0].key, c.entries@[1].key),
{
}

/// `after` arises from `before` by deleting policy victims one at a time,
/// possibly none: every deletion the retention step performs is an
/// eviction of the snapshot the policy selects.
pub open spec fn policy_evicted_from(before: Seq<Snapshot>, after: Seq<Snapshot>) -> bool
    decreases before.len(),
{
    ||| after == before
    ||| exists|v: int|
        0 <= v < before.len() && is_policy_victim(before, v) && policy_evicted_from(
            #[trigger] before.remove(v),
            after,
        )
}

/// Deleting nothing is an eviction chain.
pub proof fn lemma_policy_evicted_refl(s: Seq<Snapshot>)
    ensures
        policy_evicted_from(s, s),
{
}

/// An eviction chain extends by deleting one more policy victim at its
/// end.
pub proof fn lemma_policy_evicted_step(a: Seq<Snapshot>, b: Seq<Snapshot>, v: int)
    requires
        policy_evicted_from(a, b),
        0 <= v < b.len(),
        is_policy_victim(b, v),
    ensures
        policy_evicted_from(a, b.remove(v)),
    decreases a.len(),
{
    if a == b {
        lemma_policy_evicted_refl(b.remove(v));
        assert(0 <= v < a.len() && is_policy_victim(a, v) && policy_evicted_from(
            a.remove(v),
            b.remove(v),
        ));
    } else {
        let v0 = choose|v0: int|
            0 <= v0 < a.len() && is_policy_victim(a, v0) && policy_evicted_from(
                #[trigger] a.remove(v0),
                b,
            );
        lemma_policy_evicted_step(a.remove(v0), b, v);
        assert(0 <= v0 < a.len() && is_policy_victim(a, v0) && policy_evicted_from(
            a.remove(v0),
            b.remove(v),
        ));
    }
}

/// The value of one exec-side distance, whose fields are wide enough that
/// no difference of two keys overflows them.
pub open spec fn dist_view(d: (i128, i128, i128, i128)) -> (int, int, int, int) {
    (d.0 as int, d.1 as int, d.2 as int, d.3 as int)
}

/// Computes the distance from `a` to `b`, exactly `key_distance`.
fn distance_exec(a: &SnapshotKey, b: &SnapshotKey) -> (r: (i128, i128, i128, i128))
    ensures
        dist_view(r) == key_distance(*a, *b),
{
    let d_major = b.major as i128 - a.major as i128;
    let d_minor = if a.major == b.major {
        b.minor as i128 - a.minor as i128
    } else {
        0
    };
    let d_patch = if a.major == b.major && a.minor == b.minor {
        b.patch as i128 - a.patch as i128
    } else {
        0
    };
    let d_ts = b.ts as i128 - a.ts as i128;
    (d_major, d_minor, d_patch, d_ts)
}

/// Compares two exec-side distances, exactly as `dist_lt` orders their
/// values.
fn dist_lt_exec(x: &(i128, i128, i128, i128), y: &(i128, i128, i128, i128)) -> (r: bool)
    ensures
        r == dist_lt(dist_view(*x), dist_view(*y)),
{
    if x.0 != y.0 {
        x.0 < y.0
    } else if x.1 != y.1 {
        x.1 < y.1
    } else if x.2 != y.2 {
        x.2 < y.2
    } else {
        x.3 < y.3
    }
}

/// Computes the window weight around interior entry `i`, exactly
/// `window_key`.
fn window_key_exec(c: &Catalog, i: usize) -> (r: (
    (i128, i128, i128, i128),
    (i128, i128, i128, i128),
))
    requires
        1 <= i < c.entries@.len() - 1,
    ensures
        dist_view(r.0) == window_key(c.entries@, i as int).0,
        dist_view(r.1) == window_key(c.entries@, i as int).1,
{
    let n = c.entries.len();
    assert(i + 1 < n);
    let d1 = distance_exec(&c.entries[i - 1].key, &c.entries[i].key);
    let d2 = distance_exec(&c.entries[i].key, &c.entries[i + 1].key);
    if dist_lt_exec(&d2, &d1) {
        (d2, d1)
    } else {
        (d1, d2)
    }
}

/// Compares two exec-side window weights, exactly as `wkey_lt` orders
/// their values.
fn wkey_lt_exec(
    x: &((i128, i128, i128, i128), (i128, i128, i128, i128)),
    y: &((i128, i128, i128, i128), (i128, i128, i128, i128)),
) -> (r: bool)
    ensures
        r == wkey_lt((dist_view(x.0), dist_view(x.1)), (dist_view(y.0), dist_view(y.1))),
{
    if dist_lt_exec(&x.0, &y.0) {
        true
    } else if x.0.0 == y.0.0 && x.0.1 == y.0.1 && x.0.2 == y.0.2 && x.0.3 == y.0.3 {
        dist_lt_exec(&x.1, &y.1)
    } else {
        false
    }
}

/// Selects the snapshot the eviction policy deletes, as an index into the
/// catalog, given the entries in ascending key order.
///
/// No victim exists among 0 or 1 snapshots: a single remaining snapshot is
/// never deleted. Of exactly 2, the one with the smaller key goes, keeping
/// the most advanced of the pair. Among 3 or more, the victim is an
/// interior entry - never the one with the globally smallest or greatest
/// key - chosen by the sliding window whose weight is smallest, the
/// earliest window winning ties.
pub fn select_victim(c: &Catalog) -> (r: Option<usize>)
    ensures
        match r {
            None => c.entries@.len() <= 1,
            Some(b) => (c.entries@.len() == 2 && b == 0) || (c.entries@.len() >= 3
                && is_victim_index(c.entries@, b as int)),
        },
        c.entries@.len() <= 1 ==> r is None,
        c.entries@.len() == 2 ==> r == Some(0usize),
        c.entries@.len() >= 3 ==> (r is Some && 1 <= r.unwrap() < c.entries@.len() - 1),
        r matches Some(b) ==> is_policy_victim(c.entries@, b as int),
{
    let ghost s = c.entries@;
    let len = c.entries.len();
    if len <= 1 {
        return None;
    }
    if len == 2 {
        return Some(0);
    }
    let mut best: usize = 1;
    let mut bk = window_key_exec(c, 1);
    let mut i: usize = 2;
    while i < len - 1
        invariant
            c.entries@ == s,
            3 <= len == s.len(),
            2 <= i <= len - 1,
            1 <= best < i,
            dist_view(bk.0) == window_key(s, best as int).0,
            dist_view(bk.1) == window_key(s, best as int).1,
            forall|j: int| 1 <= j < i ==> wkey_le(window_key(s, best as int), #[trigger] window_key(s, j)),
            forall|j: int| 1 <= j < best ==> wkey_lt(window_key(s, best as int), #[trigger] window_key(s, j)),
        decreases len - i,
    {
        let k = window_key_exec(c, i);
        if wkey_lt_exec(&k, &bk) {
            proof {
                let wb = window_key(s, best as int);
                let wi = window_key(s, i as int);
                assert forall|j: int| 1 <= j < i implies wkey_lt(wi, #[trigger] window_key(s, j)) by {
                    assert(wkey_le(wb, window_key(s, j)));
                }
            }
            best = i;
            bk = k;
        } else {
            proof {
                let wb = window_key(s, best as int);
                let wi = window_key(s, i as int);
                assert(!wkey_lt(wi, wb));
                assert(wkey_le(wb, wi));
            }
        }
        i = i + 1;
    }
    Some(best)
}

} // verus!
