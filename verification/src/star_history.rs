//! Star-history series construction: UTC-day bucketing with cumulative counts,
//! even subsampling, and the page-by-page decisions of the stargazers walk.
//! The series is a function of the fetched timestamps alone.

use vstd::prelude::*;

use crate::github::StarPage;
use crate::text::{debug_quoted, debug_str, dec, push_dec};
use crate::timefmt::{parse_rfc3339, rfc3339_parse};
use crate::{is_api, ScopeError};
use std::collections::BTreeMap;
use vstd::laws_cmp::group_laws_cmp;
use vstd::std_specs::btree::{group_btree_axioms, increasing_seq};
use vstd::std_specs::cmp::OrdSpec;
use vstd::std_specs::iter::IteratorSpec;

verus! {

/// Max points emitted after day-bucketing.
pub const MAX_DAILY_POINTS: usize = 200;

/// One chart point: unix seconds (UTC) and cumulative star count.
#[derive(Clone, Copy, Debug, PartialEq, Eq, Structural)]
pub struct StarPoint {
    pub ts: i64,
    pub count: u64,
}

/// The UTC day of a unix timestamp: the number of whole days since the
/// epoch, rounded down (`t / 86400` floored, so 1969-12-31 is day -1).
pub open spec fn day_of(t: int) -> int {
    t / 86400
}

/// The timestamp that labels the day bucket of `t`: the start of its UTC day.
pub open spec fn day_start(t: int) -> int {
    day_of(t) * 86400
}

/// The start of the UTC day of `t` is itself a representable timestamp; true of
/// every `t` from `i64::MIN + 55808` on.
pub open spec fn day_fits(t: int) -> bool {
    day_start(t) >= i64::MIN
}

/// How many of `ts` fall in the bucket labelled `x`.
pub open spec fn count_on(ts: Seq<i64>, x: int) -> nat
    decreases ts.len(),
{
    if ts.len() == 0 {
        0
    } else {
        count_on(ts.drop_last(), x) + if day_start(ts.last() as int) == x {
            1nat
        } else {
            0nat
        }
    }
}

/// How many of `ts` fall in buckets labelled `x` or earlier.
pub open spec fn count_upto(ts: Seq<i64>, x: int) -> nat
    decreases ts.len(),
{
    if ts.len() == 0 {
        0
    } else {
        count_upto(ts.drop_last(), x) + if day_start(ts.last() as int) <= x {
            1nat
        } else {
            0nat
        }
    }
}

/// Whether some timestamp of `ts` falls in the bucket labelled `x`.
pub open spec fn has_bucket(ts: Seq<i64>, x: int) -> bool {
    exists|k: int| 0 <= k < ts.len() && day_start(ts[k] as int) == x
}

/// Whether some point of `pts` has timestamp `x`.
pub open spec fn has_point(pts: Seq<StarPoint>, x: int) -> bool {
    exists|i: int| 0 <= i < pts.len() && pts[i].ts == x
}

/// Whether some bucket of `b` is labelled `x`.
spec fn bucket_listed(b: Seq<(i64, u64)>, x: int) -> bool {
    exists|j: int| 0 <= j < b.len() && b[j].0 == x
}

/// `pts` is the day-bucketed cumulative series of `ts`: one point per day that
/// holds a timestamp, in increasing order, each carrying the number of
/// timestamps on or before that day.
pub open spec fn is_daily_series(ts: Seq<i64>, pts: Seq<StarPoint>) -> bool {
    &&& forall|i: int, j: int| 0 <= i < j < pts.len() ==> pts[i].ts < pts[j].ts
    &&& forall|i: int| 0 <= i < pts.len() ==> has_bucket(ts, #[trigger] pts[i].ts as int)
    &&& forall|k: int| 0 <= k < ts.len() ==> has_point(pts, day_start(#[trigger] ts[k] as int))
    &&& forall|i: int|
        0 <= i < pts.len() ==> #[trigger] pts[i].count == count_upto(ts, pts[i].ts as int)
}

proof fn lemma_count_on_le_len(ts: Seq<i64>, x: int)
    ensures
        count_on(ts, x) <= count_upto(ts, x) <= ts.len(),
    decreases ts.len(),
{
    if ts.len() > 0 {
        lemma_count_on_le_len(ts.drop_last(), x);
    }
}

/// With no bucket strictly between `y` and `x`, the count up to `x` is the
/// count up to `y` plus the bucket `x` itself.
proof fn lemma_count_upto_step(ts: Seq<i64>, y: int, x: int)
    requires
        y < x,
        forall|k: int| 0 <= k < ts.len() ==> !(y < #[trigger] day_start(ts[k] as int) < x),
    ensures
        count_upto(ts, x) == count_upto(ts, y) + count_on(ts, x),
    decreases ts.len(),
{
    if ts.len() > 0 {
        let p = ts.drop_last();
        assert forall|k: int| 0 <= k < p.len() implies !(y < #[trigger] day_start(p[k] as int) < x) by {
            assert(p[k] == ts[k]);
        }
        lemma_count_upto_step(p, y, x);
        assert(!(y < day_start(ts[ts.len() - 1] as int) < x));
    }
}

/// With no bucket before `x`, the count up to `x` is the bucket `x` alone.
proof fn lemma_count_upto_first(ts: Seq<i64>, x: int)
    requires
        forall|k: int| 0 <= k < ts.len() ==> #[trigger] day_start(ts[k] as int) >= x,
    ensures
        count_upto(ts, x) == count_on(ts, x),
    decreases ts.len(),
{
    if ts.len() > 0 {
        let p = ts.drop_last();
        assert forall|k: int| 0 <= k < p.len() implies #[trigger] day_start(p[k] as int) >= x by {
            assert(p[k] == ts[k]);
        }
        lemma_count_upto_first(p, x);
        assert(day_start(ts[ts.len() - 1] as int) >= x);
    }
}

/// With every bucket at or before `x`, the count up to `x` is all of `ts`.
proof fn lemma_count_upto_all(ts: Seq<i64>, x: int)
    requires
        forall|k: int| 0 <= k < ts.len() ==> #[trigger] day_start(ts[k] as int) <= x,
    ensures
        count_upto(ts, x) == ts.len(),
    decreases ts.len(),
{
    if ts.len() > 0 {
        let p = ts.drop_last();
        assert forall|k: int| 0 <= k < p.len() implies #[trigger] day_start(p[k] as int) <= x by {
            assert(p[k] == ts[k]);
        }
        lemma_count_upto_all(p, x);
        assert(day_start(ts[ts.len() - 1] as int) <= x);
    }
}

/// The label of the day bucket of `t`, computed without overflow.
fn bucket_of(t: i64) -> (x: i64)
    requires
        day_fits(t as int),
    ensures
        x == day_start(t as int),
{
    if t >= 0 {
        proof {
            assert(0 <= (t as int / 86400) * 86400 <= t) by (nonlinear_arith)
                requires
                    t >= 0,
            ;
        }
        (t / 86_400) * 86_400
    } else {
        let m = -(t + 1);
        let q = m / 86_400;
        proof {
            assert(t as int / 86400 == -(q as int) - 1 && 0 <= q) by (nonlinear_arith)
                requires
                    m == -(t + 1),
                    m >= 0,
                    q == m / 86400,
            ;
        }
        -((q + 1) * 86_400)
    }
}

/// The start of a timestamp's UTC day lies at or before it.
proof fn lemma_day_start_range(t: int)
    ensures
        t - 86400 < day_start(t) <= t,
{
    assert(t - 86400 < (t / 86400) * 86400 <= t) by (nonlinear_arith);
}

/// Labels in the order the day map hands them out increase strictly.
proof fn lemma_key_order(ks: Seq<i64>, i: int, j: int)
    requires
        increasing_seq(ks),
        0 <= i < j < ks.len(),
    ensures
        ks[i] < ks[j],
{
    broadcast use group_btree_axioms;
    broadcast use group_laws_cmp;

    assert(OrdSpec::cmp_spec(&ks[i], &ks[j]) is Less);
}

/// `i64` keys compare as integers do, so the ordered map's laws apply to them.
proof fn lemma_i64_keys_ordered()
    ensures
        vstd::laws_cmp::obeys_cmp::<i64>(),
{
    broadcast use group_laws_cmp;

}

/// The day buckets of `timestamps` in increasing label order, each with the
/// number of timestamps it holds, counted in an ordered map from label to count.
fn day_buckets(timestamps: &[i64]) -> (b: Vec<(i64, u64)>)
    requires
        forall|k: int| 0 <= k < timestamps@.len() ==> day_fits(#[trigger] timestamps@[k] as int),
    ensures
        forall|a: int, c: int| 0 <= a < c < b@.len() ==> b@[a].0 < b@[c].0,
        forall|m: int| 0 <= m < b@.len() ==> has_bucket(timestamps@, #[trigger] b@[m].0 as int),
        forall|k: int|
            0 <= k < timestamps@.len() ==> bucket_listed(b@, day_start(#[trigger] timestamps@[k] as int)),
        forall|m: int|
            0 <= m < b@.len() ==> #[trigger] b@[m].1 == count_on(timestamps@, b@[m].0 as int),
{
    broadcast use group_btree_axioms;

    proof {
        lemma_i64_keys_ordered();
    }
    let ghost ts = timestamps@;
    let mut days: BTreeMap<i64, u64> = BTreeMap::new();
    let mut i: usize = 0;
    while i < timestamps.len()
        invariant
            ts == timestamps@,
            i <= ts.len(),
            forall|k: int| 0 <= k < ts.len() ==> day_fits(#[trigger] ts[k] as int),
            forall|x: i64| #[trigger] days@.contains_key(x) == has_bucket(ts.take(i as int), x as int),
            forall|x: i64|
                days@.contains_key(x) ==> #[trigger] days@[x] == count_on(ts.take(i as int), x as int),
        decreases ts.len() - i,
    {
        let x = bucket_of(timestamps[i]);
        let ghost p = ts.take(i as int);
        let ghost q = ts.take(i + 1);
        assert(q.drop_last() == p);
        assert(q.last() == ts[i as int]);
        let c: u64 = match days.get(&x) {
            Some(v) => *v,
            None => 0,
        };
        proof {
            lemma_count_on_le_len(p, x as int);
            if !days@.contains_key(x) && count_on(p, x as int) > 0 {
                lemma_count_on_witness(p, x as int);
            }
        }
        days.insert(x, c + 1);
        proof {
            assert forall|y: i64| #[trigger] days@.contains_key(y) == has_bucket(q, y as int) by {
                if has_bucket(p, y as int) {
                    let k = choose|k: int| 0 <= k < p.len() && day_start(p[k] as int) == y;
                    assert(q[k] == p[k]);
                }
                if y == x {
                    assert(q[i as int] == ts[i as int]);
                }
                if has_bucket(q, y as int) && y != x {
                    let k = choose|k: int| 0 <= k < q.len() && day_start(q[k] as int) == y;
                    assert(k != i);
                    assert(p[k] == q[k]);
                }
            }
            assert forall|y: i64| days@.contains_key(y) implies #[trigger] days@[y] == count_on(
                q,
                y as int,
            ) by {
                if y != x && !has_bucket(p, y as int) {
                    assert(count_on(p, y as int) == 0) by {
                        if count_on(p, y as int) > 0 {
                            lemma_count_on_witness(p, y as int);
                        }
                    }
                }
            }
        }
        i += 1;
    }
    assert(ts.take(ts.len() as int) == ts);

    // Read the map back in label order.
    let it0 = days.iter();
    let ghost s = IteratorSpec::remaining(&it0);
    let ghost ks = s.map_values(|kv: (&i64, &u64)| *kv.0);
    let mut b: Vec<(i64, u64)> = Vec::new();
    for kv in it: it0
        invariant
            s == it.seq(),
            b@.len() == it.index(),
            forall|j: int| 0 <= j < it.index() ==> b@[j] == (*it.seq()[j].0, *it.seq()[j].1),
    {
        b.push((*kv.0, *kv.1));
    }
    proof {
        assert forall|a: int, c: int| 0 <= a < c < b@.len() implies b@[a].0 < b@[c].0 by {
            lemma_key_order(ks, a, c);
            assert(ks[a] == b@[a].0 && ks[c] == b@[c].0);
        }
        assert forall|m: int| 0 <= m < b@.len() implies has_bucket(ts, #[trigger] b@[m].0 as int)
            && b@[m].1 == count_on(ts, b@[m].0 as int) by {
            assert(days@.contains_key(*s[m].0));
        }
        assert forall|k: int| 0 <= k < ts.len() implies bucket_listed(
            b@,
            day_start(#[trigger] ts[k] as int),
        ) by {
            lemma_day_start_range(ts[k] as int);
            let y = day_start(ts[k] as int) as i64;
            assert(has_bucket(ts, y as int));
            assert(days@.contains_key(y));
            assert(s.contains((&y, &days@[y])));
            let j = choose|j: int| 0 <= j < s.len() && s[j] == (&y, &days@[y]);
            assert(b@[j].0 == y);
        }
    }
    b
}

/// Bucket timestamps by UTC day and accumulate.
pub fn daily_cumulative(timestamps: &[i64]) -> (pts: Vec<StarPoint>)
    requires
        forall|k: int| 0 <= k < timestamps@.len() ==> day_fits(#[trigger] timestamps@[k] as int),
    ensures
        is_daily_series(timestamps@, pts@),
        forall|i: int, j: int| 0 <= i < j < pts@.len() ==> pts@[i].count < pts@[j].count,
        timestamps@.len() == 0 <==> pts@.len() == 0,
        timestamps@.len() > 0 ==> pts@.last().count == timestamps@.len(),
{
    let ghost ts = timestamps@;
    // Buckets sorted by label, each with the number of timestamps in it.
    let b = day_buckets(timestamps);
    assert(ts.len() == timestamps.len());

    // Accumulate bucket counts in label order.
    let mut pts: Vec<StarPoint> = Vec::new();
    let mut acc: u64 = 0;
    let mut j: usize = 0;
    while j < b.len()
        invariant
            ts == timestamps@,
            ts.len() <= usize::MAX,
            j <= b.len(),
            pts@.len() == j,
            forall|a: int, c: int| 0 <= a < c < b.len() ==> b@[a].0 < b@[c].0,
            forall|m: int| 0 <= m < b.len() ==> has_bucket(ts, #[trigger] b@[m].0 as int),
            forall|k: int| 0 <= k < ts.len() ==> bucket_listed(b@, day_start(#[trigger] ts[k] as int)),
            forall|m: int| 0 <= m < b.len() ==> #[trigger] b@[m].1 == count_on(ts, b@[m].0 as int),
            j > 0 ==> acc == count_upto(ts, b@[j - 1].0 as int),
            j == 0 ==> acc == 0,
            forall|m: int|
                0 <= m < j ==> #[trigger] pts@[m] == (StarPoint {
                    ts: b@[m].0,
                    count: count_upto(ts, b@[m].0 as int) as u64,
                }),
        decreases b.len() - j,
    {
        let (x, n) = b[j];
        proof {
            if j == 0 {
                assert forall|k: int| 0 <= k < ts.len() implies #[trigger] day_start(ts[k] as int)
                    >= x by {
                    let m = choose|m: int|
                        0 <= m < b.len() && b@[m].0 == day_start(ts[k] as int);
                    if m > 0 {
                        assert(b@[0].0 < b@[m].0);
                    }
                }
                lemma_count_upto_first(ts, x as int);
            } else {
                let y = b@[j - 1].0;
                assert forall|k: int| 0 <= k < ts.len() implies !(y < #[trigger] day_start(
                    ts[k] as int,
                ) < x) by {
                    let m = choose|m: int|
                        0 <= m < b.len() && b@[m].0 == day_start(ts[k] as int);
                    if m < j - 1 {
                        assert(b@[m].0 < b@[j - 1].0);
                    } else if m > j {
                        assert(b@[j as int].0 < b@[m].0);
                    }
                }
                lemma_count_upto_step(ts, y as int, x as int);
            }
            lemma_count_on_le_len(ts, x as int);
        }
        acc = acc + n;
        pts.push(StarPoint { ts: x, count: acc });
        j += 1;
    }
    proof {
        assert forall|i: int, c: int| 0 <= i < c < pts@.len() implies pts@[i].count
            < pts@[c].count by {
            lemma_count_upto_strict(ts, b@, i, c);
            lemma_count_on_le_len(ts, b@[i].0 as int);
            lemma_count_on_le_len(ts, b@[c].0 as int);
        }
        if ts.len() > 0 {
            assert(bucket_listed(b@, day_start(ts[0] as int)));
            assert(pts@.len() > 0);
            let last = b@[b.len() - 1].0;
            assert forall|k: int| 0 <= k < ts.len() implies #[trigger] day_start(ts[k] as int)
                <= last by {
                let mm = choose|mm: int|
                    0 <= mm < b.len() && b@[mm].0 == day_start(ts[k] as int);
                if mm < b.len() - 1 {
                    assert(b@[mm].0 < b@[b.len() - 1].0);
                }
            }
            lemma_count_upto_all(ts, last as int);
        }
        if pts@.len() > 0 {
            assert(has_bucket(ts, b@[0].0 as int));
        }
        assert forall|k: int| 0 <= k < ts.len() implies has_point(pts@, day_start(#[trigger] ts[k] as int)) by {
            let m = choose|m: int| 0 <= m < b.len() && b@[m].0 == day_start(ts[k] as int);
            assert(pts@[m].ts == b@[m].0);
        }
        assert forall|m: int| 0 <= m < pts@.len() implies has_bucket(ts, #[trigger] pts@[m].ts as int) by {
            assert(pts@[m].ts == b@[m].0);
        }
        assert forall|m: int| 0 <= m < pts@.len() implies #[trigger] pts@[m].count == count_upto(
            ts,
            pts@[m].ts as int,
        ) by {
            lemma_count_on_le_len(ts, b@[m].0 as int);
        }
        assert forall|a: int, c: int| 0 <= a < c < pts@.len() implies pts@[a].ts < pts@[c].ts by {
            assert(pts@[a].ts == b@[a].0);
            assert(pts@[c].ts == b@[c].0);
        }
    }
    pts
}

/// Removing one timestamp takes it out of every count that includes its day.
proof fn lemma_count_upto_remove(ts: Seq<i64>, i: int, x: int)
    requires
        0 <= i < ts.len(),
    ensures
        count_upto(ts, x) == count_upto(ts.remove(i), x) + if day_start(ts[i] as int) <= x {
            1nat
        } else {
            0nat
        },
    decreases ts.len(),
{
    if i == ts.len() - 1 {
        assert(ts.remove(i) =~= ts.drop_last());
    } else {
        lemma_count_upto_remove(ts.drop_last(), i, x);
        assert(ts.remove(i).drop_last() =~= ts.drop_last().remove(i));
        assert(ts.remove(i).last() == ts.last());
    }
}

/// The count up to a day depends on the timestamps as a multiset only.
proof fn lemma_count_upto_perm(a: Seq<i64>, b: Seq<i64>, x: int)
    requires
        a.to_multiset() == b.to_multiset(),
    ensures
        count_upto(a, x) == count_upto(b, x),
    decreases a.len(),
{
    broadcast use vstd::seq_lib::group_to_multiset_ensures;

    if a.len() == 0 {
        assert(a.to_multiset().len() == 0);
        assert(b.to_multiset().len() == b.len());
        assert(b.len() == 0);
    } else {
        let v = a.last();
        assert(a.contains(v)) by {
            assert(a[a.len() - 1] == v);
        }
        assert(a.to_multiset().count(v) > 0);
        assert(b.to_multiset().count(v) > 0);
        assert(b.contains(v));
        let i = choose|i: int| 0 <= i < b.len() && b[i] == v;
        assert(a.remove(a.len() - 1) =~= a.drop_last());
        lemma_count_upto_remove(b, i, x);
        lemma_count_upto_perm(a.drop_last(), b.remove(i), x);
    }
}

/// Law: the day-bucketed series does not depend on the order of the
/// timestamps: a series of `a` is a series of every rearrangement `b` of `a`
/// (and, being unique, the only one).
pub proof fn lemma_daily_series_permutation(a: Seq<i64>, b: Seq<i64>, pts: Seq<StarPoint>)
    requires
        a.to_multiset() == b.to_multiset(),
        is_daily_series(a, pts),
    ensures
        is_daily_series(b, pts),
{
    broadcast use vstd::seq_lib::group_to_multiset_ensures;

    assert forall|i: int| 0 <= i < pts.len() implies has_bucket(b, #[trigger] pts[i].ts as int) by {
        let k = choose|k: int| 0 <= k < a.len() && day_start(a[k] as int) == pts[i].ts;
        assert(a.contains(a[k]));
        assert(a.to_multiset().count(a[k]) > 0);
        assert(b.to_multiset().count(a[k]) > 0);
        assert(b.contains(a[k]));
    }
    assert forall|k: int| 0 <= k < b.len() implies has_point(pts, day_start(#[trigger] b[k] as int)) by {
        assert(b.contains(b[k]));
        assert(b.to_multiset().count(b[k]) > 0);
        assert(a.to_multiset().count(b[k]) > 0);
        assert(a.contains(b[k]));
        let j = choose|j: int| 0 <= j < a.len() && a[j] == b[k];
        assert(has_point(pts, day_start(a[j] as int)));
    }
    assert forall|i: int| 0 <= i < pts.len() implies #[trigger] pts[i].count == count_upto(
        b,
        pts[i].ts as int,
    ) by {
        lemma_count_upto_perm(a, b, pts[i].ts as int);
    }
}

/// The day-bucketed series of a list of timestamps is unique: the series is a
/// function of the timestamps alone, so repeated runs over the same star
/// history give the same points.
pub proof fn lemma_daily_series_unique(ts: Seq<i64>, a: Seq<StarPoint>, b: Seq<StarPoint>)
    requires
        is_daily_series(ts, a),
        is_daily_series(ts, b),
    ensures
        a == b,
{
    let n = if a.len() < b.len() {
        a.len()
    } else {
        b.len()
    };
    if n > 0 {
        lemma_daily_prefix_agree(ts, a, b, n - 1);
    }
    if a.len() > b.len() {
        let x = a[b.len() as int].ts;
        assert(has_bucket(ts, x as int));
        let k = choose|k: int| 0 <= k < ts.len() && day_start(ts[k] as int) == x;
        assert(has_point(b, day_start(ts[k] as int)));
        let j = choose|j: int| 0 <= j < b.len() && b[j].ts == x;
        assert(a[j].ts == b[j].ts);
        assert(false);
    }
    if b.len() > a.len() {
        let x = b[a.len() as int].ts;
        assert(has_bucket(ts, x as int));
        let k = choose|k: int| 0 <= k < ts.len() && day_start(ts[k] as int) == x;
        assert(has_point(a, day_start(ts[k] as int)));
        let j = choose|j: int| 0 <= j < a.len() && a[j].ts == x;
        assert(a[j].ts == b[j].ts);
        assert(false);
    }
    assert forall|i: int| 0 <= i < a.len() implies a[i] == b[i] by {
        assert(a[i].ts == b[i].ts);
        assert(a[i].count == count_upto(ts, a[i].ts as int));
        assert(b[i].count == count_upto(ts, b[i].ts as int));
    }
    assert(a =~= b);
}

proof fn lemma_daily_prefix_agree(ts: Seq<i64>, a: Seq<StarPoint>, b: Seq<StarPoint>, i: int)
    requires
        is_daily_series(ts, a),
        is_daily_series(ts, b),
        0 <= i < a.len(),
        i < b.len(),
    ensures
        forall|j: int| 0 <= j <= i ==> #[trigger] a[j].ts == b[j].ts,
    decreases i,
{
    if i > 0 {
        lemma_daily_prefix_agree(ts, a, b, i - 1);
    }
    if a[i].ts < b[i].ts {
        let x = a[i].ts;
        assert(has_bucket(ts, x as int));
        let k = choose|k: int| 0 <= k < ts.len() && day_start(ts[k] as int) == x;
        assert(has_point(b, day_start(ts[k] as int)));
        let j = choose|j: int| 0 <= j < b.len() && b[j].ts == x;
        if j >= i {
            if j > i {
                assert(b[i].ts < b[j].ts);
            }
        } else {
            assert(a[j].ts == b[j].ts);
            assert(a[j].ts < a[i].ts);
        }
    } else if a[i].ts > b[i].ts {
        let x = b[i].ts;
        assert(has_bucket(ts, x as int));
        let k = choose|k: int| 0 <= k < ts.len() && day_start(ts[k] as int) == x;
        assert(has_point(a, day_start(ts[k] as int)));
        let j = choose|j: int| 0 <= j < a.len() && a[j].ts == x;
        if j >= i {
            if j > i {
                assert(a[i].ts < a[j].ts);
            }
        } else {
            assert(a[j].ts == b[j].ts);
            assert(b[j].ts < b[i].ts);
        }
    }
}

/// Sampling stride that brings `len` points down to at most `max` with both
/// ends kept: `ceil((len - 1) / (max - 1))`.
pub open spec fn sample_step(len: int, max: int) -> int {
    (len + max - 3) / (max - 1)
}

/// Every `step`-th point of `p`, starting with the first.
pub open spec fn every_nth(p: Seq<StarPoint>, step: int) -> Seq<StarPoint> {
    Seq::new(((p.len() + step - 1) / step) as nat, |m: int| p[m * step])
}

/// What [`subsample`] returns: `p` itself when it is short enough (or `max < 2`),
/// else every `ceil((len - 1) / (max - 1))`-th point, with the final point
/// appended when the stride did not land on a point equal to it.
pub open spec fn subsample_spec(p: Seq<StarPoint>, max: int) -> Seq<StarPoint> {
    if p.len() <= max || max < 2 {
        p
    } else {
        let s = every_nth(p, sample_step(p.len() as int, max));
        if s.last() != p.last() {
            s.push(p.last())
        } else {
            s
        }
    }
}

proof fn lemma_step_bounds(len: int, max: int)
    requires
        len > max >= 2,
    ensures
        sample_step(len, max) >= 1,
        sample_step(len, max) * (max - 1) >= len - 1,
        (len + sample_step(len, max) - 1) / sample_step(len, max) <= max,
        (len + sample_step(len, max) - 1) / sample_step(len, max) >= 1,
{
    let step = sample_step(len, max);
    assert(step >= 1 && step * (max - 1) >= len - 1) by (nonlinear_arith)
        requires
            len > max >= 2,
            step == (len + max - 3) / (max - 1),
    ;
    let k = (len + step - 1) / step;
    assert((k - 1) * step <= len - 1 && k >= 1) by (nonlinear_arith)
        requires
            step >= 1,
            k == (len + step - 1) / step,
            len >= 1,
    ;
    assert(k - 1 <= max - 1) by (nonlinear_arith)
        requires
            (k - 1) * step <= len - 1,
            step * (max - 1) >= len - 1,
            step >= 1,
            k >= 1,
    ;
}

proof fn lemma_last_sample(len: int, step: int, k: int)
    requires
        step >= 1,
        k >= 0,
        k * step < len,
        len <= (k + 1) * step,
    ensures
        (len + step - 1) / step == k + 1,
{
    assert((len + step - 1) / step == k + 1) by (nonlinear_arith)
        requires
            step >= 1,
            k >= 0,
            k * step < len,
            len <= (k + 1) * step,
    ;
}

/// Keep at most `max` points, evenly (always keeps first and last).
pub fn subsample(points: Vec<StarPoint>, max: usize) -> (out: Vec<StarPoint>)
    ensures
        out@ == subsample_spec(points@, max as int),
{
    let len = points.len();
    if len <= max || max < 2 {
        return points;
    }
    let n = len - 1;
    let d = max - 1;
    assert(n / d <= n) by (nonlinear_arith)
        requires
            d >= 1,
            n >= 0,
    ;
    let step = n / d + if n % d == 0 {
        0
    } else {
        1
    };
    proof {
        assert(step == sample_step(len as int, max as int)) by (nonlinear_arith)
            requires
                max >= 2,
                n == len - 1,
                d == max - 1,
                step == n / d + if n % d == 0 {
                    0int
                } else {
                    1int
                },
        ;
        lemma_step_bounds(len as int, max as int);
    }
    let ghost p = points@;
    let mut out: Vec<StarPoint> = Vec::new();
    let mut i: usize = 0;
    let ghost mut k: int = 0;
    loop
        invariant_except_break
            out@ == Seq::new(k as nat, |m: int| p[m * step]),
        invariant
            p == points@,
            len == p.len(),
            len > max >= 2,
            step >= 1,
            k >= 0,
            i == k * step,
            i < len,
        ensures
            k >= 0,
            k * step < len,
            len <= (k + 1) * step,
            out@ == Seq::new((k + 1) as nat, |m: int| p[m * step]),
        decreases len - i,
    {
        out.push(points[i]);
        assert(out@ =~= Seq::new((k + 1) as nat, |m: int| p[m * step]));
        if len - i <= step {
            assert((k + 1) * step == k * step + step) by (nonlinear_arith);
            break;
        }
        i = i + step;
        proof {
            k = k + 1;
            assert(i == k * step) by (nonlinear_arith)
                requires
                    i == (k - 1) * step + step,
            ;
        }
    }
    proof {
        lemma_last_sample(len as int, step as int, k);
    }
    assert(out@ == every_nth(p, step as int));
    let last = points[len - 1];
    let tail = out[out.len() - 1];
    if tail.ts != last.ts || tail.count != last.count {
        out.push(last);
    }
    out
}

/// Timestamps and counts both strictly increase along `p`.
pub open spec fn strictly_increasing(p: Seq<StarPoint>) -> bool {
    forall|i: int, j: int| 0 <= i < j < p.len() ==> p[i].ts < p[j].ts && p[i].count < p[j].count
}

/// Subsampling keeps the first and the last point, never grows the series, and
/// leaves at most `max` points whenever `max` is at least two.
pub proof fn lemma_subsample_keeps_ends(p: Seq<StarPoint>, max: int)
    requires
        p.len() > 0,
    ensures
        subsample_spec(p, max).len() > 0,
        subsample_spec(p, max)[0] == p[0],
        subsample_spec(p, max).last() == p.last(),
        subsample_spec(p, max).len() <= p.len(),
        max >= 2 ==> subsample_spec(p, max).len() <= max,
{
    if !(p.len() <= max || max < 2) {
        let len = p.len() as int;
        let step = sample_step(len, max);
        lemma_step_bounds(len, max);
        let s = every_nth(p, step);
        let k = (len + step - 1) / step;
        assert(s.len() == k);
        assert(s[0] == p[0 * step]);
        assert(0 * step == 0);
        assert(k <= len) by (nonlinear_arith)
            requires
                step >= 1,
                k == (len + step - 1) / step,
                len >= 1,
        ;
        assert((k - 1) * step <= len - 1) by (nonlinear_arith)
            requires
                step >= 1,
                k == (len + step - 1) / step,
                len >= 1,
        ;
        if (len - 1) % step == 0 {
            let q = (len - 1) / step;
            assert(q * step == len - 1 && q == k - 1) by (nonlinear_arith)
                requires
                    step >= 1,
                    k == (len + step - 1) / step,
                    (len - 1) % step == 0,
                    q == (len - 1) / step,
            ;
            assert(s.last() == p[(k - 1) * step]);
        }
        if s.last() != p.last() {
            assert((k - 1) * step != len - 1);
            assert(k < len) by (nonlinear_arith)
                requires
                    step >= 1,
                    k == (len + step - 1) / step,
                    (k - 1) * step < len - 1,
                    len >= 1,
            ;
            assert(k < max) by (nonlinear_arith)
                requires
                    step >= 1,
                    (k - 1) * step < len - 1,
                    step * (max - 1) >= len - 1,
                    k >= 1,
            ;
        }
    }
}

/// Subsampling keeps a strictly increasing series strictly increasing.
pub proof fn lemma_subsample_increasing(p: Seq<StarPoint>, max: int)
    requires
        strictly_increasing(p),
    ensures
        strictly_increasing(subsample_spec(p, max)),
{
    if !(p.len() <= max || max < 2) {
        let len = p.len() as int;
        let step = sample_step(len, max);
        lemma_step_bounds(len, max);
        let s = every_nth(p, step);
        let k = (len + step - 1) / step;
        assert((k - 1) * step <= len - 1) by (nonlinear_arith)
            requires
                step >= 1,
                k == (len + step - 1) / step,
                len >= 1,
        ;
        assert forall|i: int, j: int| 0 <= i < j < s.len() implies s[i].ts < s[j].ts && s[i].count
            < s[j].count by {
            assert(0 <= i * step < j * step <= (k - 1) * step) by (nonlinear_arith)
                requires
                    step >= 1,
                    0 <= i < j < k,
            ;
        }
        if s.last() != p.last() {
            let r = s.push(p.last());
            assert((k - 1) * step != len - 1);
            assert forall|i: int, j: int| 0 <= i < j < r.len() implies r[i].ts < r[j].ts
                && r[i].count < r[j].count by {
                if j == r.len() - 1 {
                    assert(0 <= i * step <= (k - 1) * step) by (nonlinear_arith)
                        requires
                            step >= 1,
                            0 <= i < k,
                    ;
                    assert(r[i] == p[i * step]);
                    assert(r[j] == p[len - 1]);
                } else {
                    assert(r[i] == s[i] && r[j] == s[j]);
                }
            }
        }
    }
}

/// A day-bucketed series of at least one timestamp ends at the latest day,
/// with every timestamp counted.
pub proof fn lemma_daily_series_last(ts: Seq<i64>, d: Seq<StarPoint>)
    requires
        is_daily_series(ts, d),
        ts.len() > 0,
    ensures
        d.len() > 0,
        d.last().count == ts.len(),
        has_bucket(ts, d.last().ts as int),
        forall|k: int| 0 <= k < ts.len() ==> day_start(#[trigger] ts[k] as int) <= d.last().ts,
{
    assert(has_point(d, day_start(ts[0] as int)));
    let last = d.last().ts;
    assert forall|k: int| 0 <= k < ts.len() implies day_start(#[trigger] ts[k] as int) <= last by {
        assert(has_point(d, day_start(ts[k] as int)));
        let m = choose|m: int| 0 <= m < d.len() && d[m].ts == day_start(ts[k] as int);
        if m < d.len() - 1 {
            assert(d[m].ts < d[d.len() - 1].ts);
        }
    }
    lemma_count_upto_all(ts, last as int);
    assert(d[d.len() - 1].count == count_upto(ts, d[d.len() - 1].ts as int));
    assert(has_bucket(ts, d[d.len() - 1].ts as int));
}

/// The day-bucketed series is strictly increasing in both time and count.
pub proof fn lemma_daily_series_increasing(ts: Seq<i64>, d: Seq<StarPoint>)
    requires
        is_daily_series(ts, d),
    ensures
        strictly_increasing(d),
{
    assert forall|i: int, j: int| 0 <= i < j < d.len() implies d[i].ts < d[j].ts && d[i].count
        < d[j].count by {
        assert(has_bucket(ts, d[j].ts as int));
        let k = choose|k: int| 0 <= k < ts.len() && day_start(ts[k] as int) == d[j].ts;
        lemma_count_upto_mono_strict(ts, d[i].ts as int, d[j].ts as int, k);
        assert(d[i].count == count_upto(ts, d[i].ts as int));
        assert(d[j].count == count_upto(ts, d[j].ts as int));
    }
}

proof fn lemma_count_on_witness(ts: Seq<i64>, x: int)
    requires
        count_on(ts, x) > 0,
    ensures
        exists|k: int| 0 <= k < ts.len() && day_start(ts[k] as int) == x,
    decreases ts.len(),
{
    let p = ts.drop_last();
    if day_start(ts.last() as int) == x {
        assert(day_start(ts[ts.len() - 1] as int) == x);
    } else {
        lemma_count_on_witness(p, x);
        let k = choose|k: int| 0 <= k < p.len() && day_start(p[k] as int) == x;
        assert(ts[k] == p[k]);
    }
}

/// Counts up to increasing bucket labels grow strictly: every bucket holds a timestamp.
proof fn lemma_count_upto_strict(ts: Seq<i64>, b: Seq<(i64, u64)>, i: int, c: int)
    requires
        0 <= i < c < b.len(),
        forall|a: int, d: int| 0 <= a < d < b.len() ==> b[a].0 < b[d].0,
        forall|m: int| 0 <= m < b.len() ==> has_bucket(ts, #[trigger] b[m].0 as int),
    ensures
        count_upto(ts, b[i].0 as int) < count_upto(ts, b[c].0 as int),
{
    assert(has_bucket(ts, b[c].0 as int));
    let k = choose|k: int| 0 <= k < ts.len() && day_start(ts[k] as int) == b[c].0;
    lemma_count_upto_mono_strict(ts, b[i].0 as int, b[c].0 as int, k);
}

proof fn lemma_count_upto_mono_strict(ts: Seq<i64>, y: int, x: int, k: int)
    requires
        y < x,
        0 <= k < ts.len(),
        day_start(ts[k] as int) == x,
    ensures
        count_upto(ts, y) < count_upto(ts, x),
    decreases ts.len(),
{
    let p = ts.drop_last();
    if k < ts.len() - 1 {
        assert(p[k] == ts[k]);
        lemma_count_upto_mono_strict(p, y, x, k);
    } else {
        lemma_count_upto_mono(p, y, x);
    }
}

proof fn lemma_count_upto_mono(ts: Seq<i64>, y: int, x: int)
    requires
        y <= x,
    ensures
        count_upto(ts, y) <= count_upto(ts, x),
    decreases ts.len(),
{
    if ts.len() > 0 {
        lemma_count_upto_mono(ts.drop_last(), y, x);
    }
}

} // verus!

verus! {

/// Stderr progress cadence (pages).
pub const PROGRESS_EVERY_PAGES: u32 = 50;

/// What parsing each of `strs` in order gives: every timestamp, or the first
/// string that failed together with the parser's message.
pub open spec fn parse_all(strs: Seq<Seq<char>>) -> Result<Seq<i64>, (Seq<char>, Seq<char>)>
    decreases strs.len(),
{
    if strs.len() == 0 {
        Ok(seq![])
    } else {
        match parse_all(strs.drop_last()) {
            Err(e) => Err(e),
            Ok(v) => match rfc3339_parse(strs.last()) {
                Ok(t) => Ok(v.push(t)),
                Err(m) => Err((strs.last(), m)),
            },
        }
    }
}

/// The error reported for a `starredAt` value that does not parse.
pub open spec fn bad_starred_at(s: Seq<char>, m: Seq<char>) -> Seq<char> {
    "bad starredAt "@ + debug_quoted(s) + ": "@ + m
}

/// Parse an RFC 3339 timestamp to unix seconds.
pub fn parse_ts(s: &str) -> (r: Result<i64, ScopeError>)
    ensures
        match rfc3339_parse(s@) {
            Ok(t) => r == Ok::<i64, ScopeError>(t),
            Err(m) => r matches Err(e) && is_api(e, bad_starred_at(s@, m)),
        },
{
    match parse_rfc3339(s) {
        Ok(t) => Ok(t),
        Err(e) => {
            let mut msg = String::from_str("bad starredAt ");
            msg.append(debug_str(s).as_str());
            msg.append(": ");
            msg.append(e.as_str());
            Err(ScopeError::Api(msg))
        },
    }
}

/// What the stargazers walk does after a page: whether to print a progress
/// line, and which cursor to fetch next (`Ok(None)` when the walk is over).
#[derive(Debug)]
pub struct PageOutcome {
    pub report_progress: bool,
    pub next: Result<Option<String>, ScopeError>,
}

/// The state of a stargazers walk: every timestamp read so far, the total the
/// API last reported, and the number of pages read.
#[derive(Debug)]
pub struct StarSeriesBuilder {
    pub timestamps: Vec<i64>,
    pub total: u64,
    pub pages: u32,
}

/// The series the walk yields for `timestamps` and `total`: empty when the
/// repository has no stars, else the day-bucketed series of the timestamps,
/// subsampled to [`MAX_DAILY_POINTS`].
pub open spec fn star_series(timestamps: Seq<i64>, total: u64, out: Seq<StarPoint>) -> bool {
    if total == 0 {
        out.len() == 0
    } else {
        exists|d: Seq<StarPoint>|
            is_daily_series(timestamps, d) && out == subsample_spec(d, MAX_DAILY_POINTS as int)
    }
}

/// Subsampling more than `MAX_DAILY_POINTS` points keeps over half of the
/// limit: with stride `ceil((n - 1) / 199)` at least 101 points remain.
proof fn lemma_subsample_keeps_over_half(p: Seq<StarPoint>)
    requires
        p.len() > MAX_DAILY_POINTS,
    ensures
        subsample_spec(p, MAX_DAILY_POINTS as int).len() > 100,
{
    let n = p.len() as int;
    let step = sample_step(n, 200);
    lemma_step_bounds(n, 200);
    let k = (n + step - 1) / step;
    assert(step * 199 <= n + 197) by (nonlinear_arith)
        requires
            step == (n + 197) / 199,
    ;
    assert(k * step >= n) by (nonlinear_arith)
        requires
            step >= 1,
            k == (n + step - 1) / step,
    ;
    assert(k > 100) by (nonlinear_arith)
        requires
            k * step >= n,
            step * 199 <= n + 197,
            n > 200,
            step >= 1,
    ;
    assert(every_nth(p, step).len() == k);
}

/// Law: the finished series of a non-empty star history is its day-bucketed
/// series itself (one point per day with a star) when that has at most
/// `MAX_DAILY_POINTS` points; a longer one is thinned to between 101 and
/// `MAX_DAILY_POINTS` of its own points, first and last day kept.
pub proof fn lemma_series_thinning(timestamps: Seq<i64>, total: u64, out: Seq<StarPoint>, d: Seq<StarPoint>)
    requires
        star_series(timestamps, total, out),
        total > 0,
        is_daily_series(timestamps, d),
    ensures
        d.len() <= MAX_DAILY_POINTS ==> out == d,
        d.len() > MAX_DAILY_POINTS ==> {
            &&& 100 < out.len() <= MAX_DAILY_POINTS
            &&& out[0] == d[0]
            &&& out.last() == d.last()
            &&& forall|i: int| 0 <= i < out.len() ==> has_point(d, #[trigger] out[i].ts as int)
        },
{
    let e = choose|e: Seq<StarPoint>|
        is_daily_series(timestamps, e) && out == subsample_spec(e, MAX_DAILY_POINTS as int);
    lemma_daily_series_unique(timestamps, d, e);
    if d.len() > MAX_DAILY_POINTS {
        lemma_subsample_keeps_over_half(d);
        lemma_subsample_keeps_ends(d, MAX_DAILY_POINTS as int);
        let n = d.len() as int;
        let step = sample_step(n, 200);
        lemma_step_bounds(n, 200);
        let k = (n + step - 1) / step;
        assert((k - 1) * step <= n - 1) by (nonlinear_arith)
            requires
                step >= 1,
                k == (n + step - 1) / step,
                n >= 1,
        ;
        assert forall|i: int| 0 <= i < out.len() implies has_point(d, #[trigger] out[i].ts as int) by {
            if i < k {
                assert(0 <= i * step <= (k - 1) * step) by (nonlinear_arith)
                    requires
                        step >= 1,
                        0 <= i < k,
                ;
                assert(out[i] == d[i * step]);
            } else {
                assert(out[i] == d[n - 1]);
            }
        }
    }
}

impl StarSeriesBuilder {
    /// A walk that has read nothing yet.
    pub fn new() -> (r: Self)
        ensures
            r.timestamps@.len() == 0,
            r.total == 0,
            r.pages == 0,
    {
        StarSeriesBuilder { timestamps: Vec::new(), total: 0, pages: 0 }
    }

    /// Take in one page: record its total, count it, append its timestamps (in
    /// order), then decide on progress output and the next cursor. A timestamp
    /// that does not parse ends the walk with an API error.
    pub fn absorb_page(&mut self, page: StarPage) -> (r: Result<PageOutcome, ScopeError>)
        requires
            old(self).pages < u32::MAX,
        ensures
            final(self).total == page.total_count,
            final(self).pages == old(self).pages + 1,
            match parse_all(page.starred_at@.map_values(|s: String| s@)) {
                Err((s, m)) => r matches Err(e) && is_api(e, bad_starred_at(s, m)),
                Ok(v) => {
                    &&& final(self).timestamps@ == old(self).timestamps@ + v
                    &&& r matches Ok(o) && {
                        &&& o.report_progress == (final(self).pages % PROGRESS_EVERY_PAGES == 0)
                        &&& if !page.has_next_page {
                            o.next == Ok::<Option<String>, ScopeError>(None)
                        } else {
                            match page.end_cursor {
                                Some(c) => o.next == Ok::<Option<String>, ScopeError>(Some(c)),
                                None => o.next matches Err(e) && is_api(
                                    e,
                                    "stargazers page missing endCursor"@,
                                ),
                            }
                        }
                    }
                },
            },
    {
        self.total = page.total_count;
        self.pages = self.pages + 1;
        let ghost strs = page.starred_at@.map_values(|s: String| s@);
        let ghost start = self.timestamps@;
        let mut i: usize = 0;
        while i < page.starred_at.len()
            invariant
                strs == page.starred_at@.map_values(|s: String| s@),
                i <= strs.len(),
                parse_all(strs.take(i as int)) matches Ok(v) && self.timestamps@ == start + v,
                self.total == page.total_count,
                self.pages == old(self).pages + 1,
            decreases strs.len() - i,
        {
            let ghost before = self.timestamps@;
            assert(strs.take(i + 1).drop_last() == strs.take(i as int));
            assert(strs.take(i + 1).last() == page.starred_at@[i as int]@);
            match parse_ts(page.starred_at[i].as_str()) {
                Ok(t) => {
                    self.timestamps.push(t);
                },
                Err(e) => {
                    proof {
                        lemma_parse_all_err_extends(strs, i as int + 1);
                    }
                    return Err(e);
                },
            }
            i += 1;
        }
        assert(strs.take(strs.len() as int) == strs);
        let report_progress = self.pages % PROGRESS_EVERY_PAGES == 0;
        let next = if !page.has_next_page {
            Ok(None)
        } else {
            match page.end_cursor {
                Some(c) => Ok(Some(c)),
                None => Err(ScopeError::Api(String::from_str("stargazers page missing endCursor"))),
            }
        };
        Ok(PageOutcome { report_progress, next })
    }

    /// The stderr progress line: `reposcope: fetched N/TOTAL stars`, with the
    /// remaining rate-limit points appended when known.
    pub fn progress_line(&self, rate_remaining: Option<u64>) -> (r: String)
        ensures
            r@ == "reposcope: fetched "@ + dec(self.timestamps@.len()) + "/"@ + dec(
                self.total as nat,
            ) + " stars"@ + match rate_remaining {
                Some(n) => ", rate remaining "@ + dec(n as nat),
                None => Seq::<char>::empty(),
            },
    {
        let mut s = String::from_str("reposcope: fetched ");
        push_dec(&mut s, self.timestamps.len() as u64);
        s.append("/");
        push_dec(&mut s, self.total);
        s.append(" stars");
        match rate_remaining {
            Some(n) => {
                s.append(", rate remaining ");
                push_dec(&mut s, n);
            },
            None => {},
        }
        s
    }

    /// The final series: empty when the API reports no stars, else the
    /// day-bucketed cumulative series of every timestamp read, subsampled.
    pub fn finish(&self) -> (r: Vec<StarPoint>)
        requires
            forall|k: int|
                0 <= k < self.timestamps@.len() ==> day_fits(#[trigger] self.timestamps@[k] as int),
        ensures
            star_series(self.timestamps@, self.total, r@),
    {
        if self.total == 0 {
            return Vec::new();
        }
        let d = daily_cumulative(self.timestamps.as_slice());
        let r = subsample(d, MAX_DAILY_POINTS);
        proof {
            assert(is_daily_series(self.timestamps@, d@));
        }
        r
    }
}

proof fn lemma_parse_all_err_extends(strs: Seq<Seq<char>>, n: int)
    requires
        0 < n <= strs.len(),
        parse_all(strs.take(n - 1)) is Ok,
        rfc3339_parse(strs[n - 1]) is Err,
    ensures
        parse_all(strs) == Err::<Seq<i64>, (Seq<char>, Seq<char>)>(
            (strs[n - 1], rfc3339_parse(strs[n - 1])->Err_0),
        ),
    decreases strs.len(),
{
    if n == strs.len() {
        assert(strs.take(n - 1) == strs.drop_last());
    } else {
        assert(strs.drop_last().take(n - 1) == strs.take(n - 1));
        lemma_parse_all_err_extends(strs.drop_last(), n);
    }
}

/// Law: a non-empty star series holds at most `MAX_DAILY_POINTS` points, ends
/// at the day of the most recent star, carrying the number of stars read, and begins at the earliest day with its
/// own count; it is strictly increasing in time and count.
pub proof fn lemma_series_ends_at_latest_star(timestamps: Seq<i64>, total: u64, out: Seq<StarPoint>)
    requires
        star_series(timestamps, total, out),
        total > 0,
        timestamps.len() > 0,
    ensures
        0 < out.len() <= MAX_DAILY_POINTS,
        out.last().count == timestamps.len(),
        has_bucket(timestamps, out.last().ts as int),
        forall|k: int|
            0 <= k < timestamps.len() ==> day_start(#[trigger] timestamps[k] as int) <= out.last().ts,
        forall|k: int|
            0 <= k < timestamps.len() ==> out[0].ts <= day_start(#[trigger] timestamps[k] as int),
        strictly_increasing(out),
{
    let d = choose|d: Seq<StarPoint>|
        is_daily_series(timestamps, d) && out == subsample_spec(d, MAX_DAILY_POINTS as int);
    lemma_daily_series_last(timestamps, d);
    lemma_subsample_keeps_ends(d, MAX_DAILY_POINTS as int);
    lemma_daily_series_increasing(timestamps, d);
    lemma_subsample_increasing(d, MAX_DAILY_POINTS as int);
    assert forall|k: int| 0 <= k < timestamps.len() implies out[0].ts <= day_start(
        #[trigger] timestamps[k] as int,
    ) by {
        assert(has_point(d, day_start(timestamps[k] as int)));
        let m = choose|m: int| 0 <= m < d.len() && d[m].ts == day_start(timestamps[k] as int);
        if m > 0 {
            assert(d[0].ts < d[m].ts);
        }
    }
}

} // verus!
