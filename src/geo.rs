//! Coordinates and the two distance metrics used for clustering.
use vstd::prelude::*;

verus! {

/// Mean Earth radius in meters.
pub const EARTH_RADIUS_M: u64 = 6371000;

/// Scale of the integer components of a unit n-vector.
pub const NVEC_SCALE: u64 = 1000000000;

/// A point on the Earth.
///
/// `lat_e7` and `lon_e7` are degrees times ten million, as location logs
/// record them. `x`, `y`, `z` are the unit normal vector of the same point,
/// each component scaled by `NVEC_SCALE`; distances are computed from them.
#[derive(Clone, Copy, Debug, PartialEq, Eq)]
pub struct Coord {
    pub lat_e7: i32,
    pub lon_e7: i32,
    pub x: i32,
    pub y: i32,
    pub z: i32,
}

pub open spec fn sq(v: int) -> nat {
    (v * v) as nat
}

/// Square of the straight-line distance between the two n-vectors, in scaled units.
pub open spec fn chord_sq(a: Coord, b: Coord) -> nat {
    sq(a.x - b.x) + sq(a.y - b.y) + sq(a.z - b.z)
}

/// Integer square root: the largest `r` with `r * r <= s`.
pub open spec fn isqrt(s: nat) -> nat
    decreases s,
{
    if s == 0 {
        0
    } else {
        let r = isqrt((s - 1) as nat);
        if (r + 1) * (r + 1) <= s {
            r + 1
        } else {
            r
        }
    }
}

/// Distance in whole meters between two points, measured along the chord
/// through the Earth; below a few kilometers it agrees with the great-circle
/// distance to well under a meter.
pub open spec fn geo_dist(a: Coord, b: Coord) -> nat {
    (isqrt(chord_sq(a, b)) * (EARTH_RADIUS_M as nat) / (NVEC_SCALE as nat)) as nat
}

/// Absolute difference of two timestamps.
pub open spec fn time_dist(a: i64, b: i64) -> nat {
    if a >= b {
        (a - b) as nat
    } else {
        (b - a) as nat
    }
}

pub proof fn lemma_isqrt_bounds(s: nat)
    ensures
        isqrt(s) * isqrt(s) <= s,
        s < (isqrt(s) + 1) * (isqrt(s) + 1),
    decreases s,
{
    if s > 0 {
        lemma_isqrt_bounds((s - 1) as nat);
        let r = isqrt((s - 1) as nat);
        if (r + 1) * (r + 1) <= s {
            assert(s < (r + 2) * (r + 2)) by (nonlinear_arith)
                requires
                    (r + 1) * (r + 1) <= s,
                    s - 1 < (r + 1) * (r + 1),
            ;
            assert(isqrt(s) == r + 1);
            assert(isqrt(s) * isqrt(s) == (r + 1) * (r + 1));
            assert((isqrt(s) + 1) * (isqrt(s) + 1) == (r + 2) * (r + 2));
        } else {
            assert(isqrt(s) == r);
            assert(isqrt(s) * isqrt(s) == r * r);
            assert((isqrt(s) + 1) * (isqrt(s) + 1) == (r + 1) * (r + 1));
        }
    } else {
        let q = isqrt(s);
        assert(q == 0);
        assert(s < (q + 1) * (q + 1)) by (nonlinear_arith)
            requires
                q == 0,
                s == 0,
        ;
    }
}

pub proof fn lemma_isqrt_unique(s: nat, r: nat)
    requires
        r * r <= s,
        s < (r + 1) * (r + 1),
    ensures
        isqrt(s) == r,
{
    lemma_isqrt_bounds(s);
    let q = isqrt(s);
    if q < r {
        assert(q + 1 <= r);
        assert((q + 1) * (q + 1) <= r * r) by (nonlinear_arith)
            requires q + 1 <= r;
    } else if q > r {
        assert(r + 1 <= q);
        assert((r + 1) * (r + 1) <= q * q) by (nonlinear_arith)
            requires r + 1 <= q;
    }
}

/// Integer square root of `s`, by bisection.
pub fn int_sqrt(s: u128) -> (r: u64)
    requires
        s < 0x10_0000_0000_0000_0000,
    ensures
        r == isqrt(s as nat),
{
    let mut lo: u128 = 0;
    let mut hi: u128 = 0x4_0000_0000;
    assert(hi * hi == 0x10_0000_0000_0000_0000);
    while lo + 1 < hi
        invariant
            lo < hi <= 0x4_0000_0000,
            lo * lo <= s,
            s < hi * hi,
        decreases hi - lo,
    {
        let mid: u128 = lo + (hi - lo) / 2;
        assert(mid * mid <= 0x4_0000_0000 * 0x4_0000_0000) by (nonlinear_arith)
            requires mid <= 0x4_0000_0000;
        if mid * mid <= s {
            lo = mid;
        } else {
            hi = mid;
        }
    }
    assert(hi == lo + 1);
    proof {
        lemma_isqrt_unique(s as nat, lo as nat);
    }
    lo as u64
}

/// Distance in meters between two points (see `geo_dist`).
pub fn distance_m(a: &Coord, b: &Coord) -> (r: u64)
    ensures
        r == geo_dist(*a, *b),
{
    let dx: i64 = a.x as i64 - b.x as i64;
    let dy: i64 = a.y as i64 - b.y as i64;
    let dz: i64 = a.z as i64 - b.z as i64;
    assert(dx * dx <= 0x1_0000_0000 * 0x1_0000_0000) by (nonlinear_arith)
        requires -0x1_0000_0000 <= dx <= 0x1_0000_0000;
    assert(dy * dy <= 0x1_0000_0000 * 0x1_0000_0000) by (nonlinear_arith)
        requires -0x1_0000_0000 <= dy <= 0x1_0000_0000;
    assert(dz * dz <= 0x1_0000_0000 * 0x1_0000_0000) by (nonlinear_arith)
        requires -0x1_0000_0000 <= dz <= 0x1_0000_0000;
    assert(0 <= dx * dx) by (nonlinear_arith);
    assert(0 <= dy * dy) by (nonlinear_arith);
    assert(0 <= dz * dz) by (nonlinear_arith);
    let sx: u128 = (dx as i128 * dx as i128) as u128;
    let sy: u128 = (dy as i128 * dy as i128) as u128;
    let sz: u128 = (dz as i128 * dz as i128) as u128;
    let s: u128 = sx + sy + sz;
    let root: u64 = int_sqrt(s);
    proof {
        lemma_isqrt_bounds(s as nat);
        assert(root <= 0x4_0000_0000) by (nonlinear_arith)
            requires
                root * root <= s,
                s <= 3 * (0x1_0000_0000 * 0x1_0000_0000),
        ;
    }
    let m: u128 = root as u128 * EARTH_RADIUS_M as u128 / NVEC_SCALE as u128;
    assert(m <= 0x4_0000_0000 * 6371000) by (nonlinear_arith)
        requires m == root * 6371000 / 1000000000, root <= 0x4_0000_0000;
    m as u64
}

/// Absolute difference of two timestamps.
pub fn time_distance(a: i64, b: i64) -> (r: u64)
    ensures
        r == time_dist(a, b),
{
    if a >= b {
        (a as i128 - b as i128) as u64
    } else {
        (b as i128 - a as i128) as u64
    }
}

} // verus!
