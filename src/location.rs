//! The location log: nearest-in-time matching and the outlier filter.
use crate::geo::{distance_m, geo_dist, time_dist, time_distance, Coord};
use vstd::prelude::*;

verus! {

/// One GPS observation: when, where, and the radius of uncertainty in meters.
#[derive(Clone, Copy, Debug, PartialEq, Eq)]
pub struct LocationFix {
    pub timestamp: i64,
    pub coord: Coord,
    pub accuracy: u32,
}

/// Fixes ordered by timestamp, ascending.
pub open spec fn sorted_by_time(s: Seq<LocationFix>) -> bool {
    forall|i: int, j: int| 0 <= i <= j < s.len() ==> s[i].timestamp <= s[j].timestamp
}

/// `i` is the index of the fix nearest in time to `time`, the earliest one
/// among equally near fixes.
pub open spec fn is_closest(s: Seq<LocationFix>, time: i64, i: int) -> bool {
    &&& 0 <= i < s.len()
    &&& forall|j: int|
        0 <= j < s.len() ==> #[trigger] time_dist(s[j].timestamp, time) >= time_dist(
            s[i].timestamp,
            time,
        )
    &&& forall|j: int| 0 <= j < i ==> #[trigger] time_dist(s[j].timestamp, time) > time_dist(
            s[i].timestamp,
            time,
        )
}

/// Index of the first fix whose timestamp is not below `key`.
fn lower_bound(log: &Vec<LocationFix>, key: i64) -> (r: usize)
    requires
        sorted_by_time(log@),
    ensures
        r <= log@.len(),
        forall|j: int| 0 <= j < r ==> #[trigger] log@[j].timestamp < key,
        forall|j: int| r <= j < log@.len() ==> #[trigger] log@[j].timestamp >= key,
{
    let mut lo: usize = 0;
    let mut hi: usize = log.len();
    while lo < hi
        invariant
            lo <= hi <= log@.len(),
            sorted_by_time(log@),
            forall|j: int| 0 <= j < lo ==> #[trigger] log@[j].timestamp < key,
            forall|j: int| hi <= j < log@.len() ==> #[trigger] log@[j].timestamp >= key,
        decreases hi - lo,
    {
        let mid: usize = lo + (hi - lo) / 2;
        if log[mid].timestamp < key {
            lo = mid + 1;
        } else {
            hi = mid;
        }
    }
    lo
}

/// Finds the fix nearest in time to `time` in a log sorted by timestamp:
/// a binary search, then a comparison of the two fixes around `time`.
/// Ties go to the earliest fix. `None` only for an empty log.
pub fn find_closest(log: &Vec<LocationFix>, time: i64) -> (r: Option<usize>)
    requires
        sorted_by_time(log@),
    ensures
        r.is_none() <==> log@.len() == 0,
        r matches Some(i) ==> is_closest(log@, time, i as int),
{
    let n = log.len();
    if n == 0 {
        return None;
    }
    let hi = lower_bound(log, time);
    if hi == 0 {
        assert forall|j: int| 0 <= j < n implies #[trigger] time_dist(log@[j].timestamp, time)
            >= time_dist(log@[0].timestamp, time) by {
            assert(log@[0].timestamp <= log@[j].timestamp);
        }
        return Some(0);
    }
    let tb = log[hi - 1].timestamp;
    let below = lower_bound(log, tb);
    assert(log@[below as int].timestamp == tb);
    if hi < n {
        let ta = log[hi].timestamp;
        if time_distance(tb, time) <= time_distance(ta, time) {
            assert forall|j: int| 0 <= j < n implies #[trigger] time_dist(log@[j].timestamp, time)
                >= time_dist(log@[below as int].timestamp, time) by {
                if j < hi {
                    assert(log@[j].timestamp <= log@[hi - 1].timestamp);
                } else {
                    assert(log@[hi as int].timestamp <= log@[j].timestamp);
                }
            }
            Some(below)
        } else {
            assert forall|j: int| 0 <= j < n implies #[trigger] time_dist(log@[j].timestamp, time)
                >= time_dist(log@[hi as int].timestamp, time) by {
                if j < hi {
                    assert(log@[j].timestamp <= log@[hi - 1].timestamp);
                } else {
                    assert(log@[hi as int].timestamp <= log@[j].timestamp);
                }
            }
            assert forall|j: int| 0 <= j < hi implies #[trigger] time_dist(log@[j].timestamp, time)
                > time_dist(log@[hi as int].timestamp, time) by {
                assert(log@[j].timestamp <= log@[hi - 1].timestamp);
            }
            Some(hi)
        }
    } else {
        assert forall|j: int| 0 <= j < n implies #[trigger] time_dist(log@[j].timestamp, time)
            >= time_dist(log@[below as int].timestamp, time) by {
            assert(log@[j].timestamp <= log@[hi - 1].timestamp);
        }
        Some(below)
    }
}

/// The bounds beyond which a fix counts as an outlier.
#[derive(Clone, Copy, Debug, PartialEq, Eq)]
pub struct OutlierLimits {
    /// Fastest plausible travel between two kept fixes, in km/h.
    pub max_speed_kmh: u32,
    /// Largest acceptable accuracy radius, in meters.
    pub max_accuracy_m: u32,
}

/// Travel from `prev` to `f` stays under the speed limit. Fixes that share a
/// timestamp are compared by distance alone: under the distance covered in
/// one hour at the limit.
pub open spec fn plausible(prev: LocationFix, f: LocationFix, max_speed_kmh: u32) -> bool {
    let d = geo_dist(prev.coord, f.coord);
    let dt = f.timestamp - prev.timestamp;
    if dt > 0 {
        d * 3600 < max_speed_kmh * 1000 * dt
    } else {
        d < max_speed_kmh * 1000
    }
}

/// `f` is kept after `last`, the fix kept most recently, if any.
pub open spec fn accepted(last: Option<LocationFix>, f: LocationFix, lim: OutlierLimits) -> bool {
    &&& f.accuracy <= lim.max_accuracy_m
    &&& last matches Some(p) ==> plausible(p, f, lim.max_speed_kmh)
}

pub open spec fn last_of(s: Seq<LocationFix>) -> Option<LocationFix> {
    if s.len() == 0 {
        None
    } else {
        Some(s.last())
    }
}

/// The fixes of `s` kept by a pass from first to last, each one judged
/// against the fix kept just before it.
pub open spec fn kept_fixes(s: Seq<LocationFix>, lim: OutlierLimits) -> Seq<LocationFix>
    decreases s.len(),
{
    if s.len() == 0 {
        s
    } else {
        let r = kept_fixes(s.drop_last(), lim);
        if accepted(last_of(r), s.last(), lim) {
            r.push(s.last())
        } else {
            r
        }
    }
}

/// The log with outliers removed; a log of fewer than two fixes is left as it is.
pub open spec fn without_outliers(s: Seq<LocationFix>, lim: OutlierLimits) -> Seq<LocationFix> {
    if s.len() < 2 {
        s
    } else {
        kept_fixes(s, lim)
    }
}

pub proof fn lemma_kept_fixes_from(s: Seq<LocationFix>, lim: OutlierLimits)
    ensures
        kept_fixes(s, lim).len() <= s.len(),
        forall|k: int|
            0 <= k < kept_fixes(s, lim).len() ==> s.contains(#[trigger] kept_fixes(s, lim)[k]),
    decreases s.len(),
{
    if s.len() > 0 {
        let r = kept_fixes(s.drop_last(), lim);
        lemma_kept_fixes_from(s.drop_last(), lim);
        assert forall|k: int| 0 <= k < kept_fixes(s, lim).len() implies s.contains(
            #[trigger] kept_fixes(s, lim)[k],
        ) by {
            if k < r.len() {
                let x = r[k];
                assert(s.drop_last().contains(x));
                let w = choose|w: int| 0 <= w < s.drop_last().len() && s.drop_last()[w] == x;
                assert(s[w] == x);
            } else {
                assert(s[s.len() - 1] == kept_fixes(s, lim)[k]);
            }
        }
    }
}

/// Filtering keeps a sorted log sorted.
pub proof fn lemma_kept_fixes_sorted(s: Seq<LocationFix>, lim: OutlierLimits)
    requires
        sorted_by_time(s),
    ensures
        sorted_by_time(kept_fixes(s, lim)),
    decreases s.len(),
{
    if s.len() > 0 {
        let r = kept_fixes(s.drop_last(), lim);
        lemma_kept_fixes_sorted(s.drop_last(), lim);
        lemma_kept_fixes_from(s.drop_last(), lim);
        assert forall|k: int| 0 <= k < r.len() implies #[trigger] r[k].timestamp
            <= s.last().timestamp by {
            let x = r[k];
            assert(s.drop_last().contains(x));
            let w = choose|w: int| 0 <= w < s.drop_last().len() && s.drop_last()[w] == x;
            assert(s[w] == x);
        }
    }
}

/// A pass over fixes that were all kept keeps them all again.
proof fn lemma_kept_fixes_stable(s: Seq<LocationFix>, lim: OutlierLimits)
    ensures
        kept_fixes(kept_fixes(s, lim), lim) == kept_fixes(s, lim),
    decreases s.len(),
{
    if s.len() > 0 {
        let r = kept_fixes(s.drop_last(), lim);
        lemma_kept_fixes_from(s.drop_last(), lim);
        lemma_kept_fixes_stable(s.drop_last(), lim);
        if accepted(last_of(r), s.last(), lim) {
            let t = r.push(s.last());
            assert(t.drop_last() == r);
        }
    }
}

/// Outlier filtering is idempotent: filtering a filtered log changes nothing.
pub proof fn lemma_filter_idempotent(s: Seq<LocationFix>, lim: OutlierLimits)
    ensures
        without_outliers(without_outliers(s, lim), lim) == without_outliers(s, lim),
{
    if s.len() >= 2 {
        lemma_kept_fixes_stable(s, lim);
    }
}

/// Whether `f` is kept after `last` (see `accepted`).
fn accepts(last: Option<LocationFix>, f: &LocationFix, lim: &OutlierLimits) -> (r: bool)
    ensures
        r == accepted(last, *f, *lim),
{
    if f.accuracy > lim.max_accuracy_m {
        return false;
    }
    match last {
        None => true,
        Some(p) => {
            let d: u64 = distance_m(&p.coord, &f.coord);
            let dt: i128 = f.timestamp as i128 - p.timestamp as i128;
            let limit: u128 = lim.max_speed_kmh as u128 * 1000;
            if dt > 0 {
                assert(limit * dt <= 0x1_0000_0000 * 1000 * 0x1_0000_0000_0000_0000)
                    by (nonlinear_arith)
                    requires
                        limit <= 0x1_0000_0000 * 1000,
                        0 < dt <= 0x1_0000_0000_0000_0000,
                        limit >= 0,
                ;
                (d as u128) * 3600 < limit * (dt as u128)
            } else {
                (d as u128) < limit
            }
        },
    }
}

/// Removes outliers from a log: a fix is dropped when its accuracy radius is
/// over the bound, or when reaching it from the fix kept before it would take
/// a speed over the limit. The order of the fixes is kept, and a log of fewer
/// than two fixes comes back unchanged.
pub fn filter_outliers(log: Vec<LocationFix>, lim: &OutlierLimits) -> (r: Vec<LocationFix>)
    ensures
        r@ == without_outliers(log@, *lim),
        sorted_by_time(log@) ==> sorted_by_time(r@),
{
    if log.len() < 2 {
        return log;
    }
    let mut out: Vec<LocationFix> = Vec::new();
    let mut i: usize = 0;
    while i < log.len()
        invariant
            i <= log@.len(),
            out@ == kept_fixes(log@.take(i as int), *lim),
        decreases log@.len() - i,
    {
        assert(log@.take(i as int + 1).drop_last() == log@.take(i as int));
        let last: Option<LocationFix> = if out.len() == 0 {
            None
        } else {
            Some(out[out.len() - 1])
        };
        if accepts(last, &log[i], lim) {
            out.push(log[i]);
        }
        i = i + 1;
    }
    assert(log@.take(log@.len() as int) == log@);
    proof {
        if sorted_by_time(log@) {
            lemma_kept_fixes_sorted(log@, *lim);
        }
    }
    out
}

} // verus!
