//! Geographic math on fixed-point coordinates.
//!
//! Latitudes and longitudes are integers in units of 1e-7 degrees, distances
//! are whole centimeters, times whole milliseconds, speeds whole km/h.
//! Great-circle distance is computed with the haversine formula, carried out
//! entirely in scaled integer arithmetic: angles in nanoradians (1e-9 rad),
//! trigonometric functions as truncated alternating series at scale 1e9.

use vstd::prelude::*;
use vstd::arithmetic::div_mod::{
    lemma_div_is_ordered, lemma_div_is_ordered_by_denominator, lemma_div_pos_is_pos,
};
use vstd::arithmetic::mul::{lemma_mul_nonnegative, lemma_mul_upper_bound};

verus! {

/// Scale of trigonometric values and of one radian in nanoradians.
pub const SCALE: u128 = 1_000_000_000;

/// `SCALE * SCALE`, the scale of the haversine value.
pub const SCALE2: u128 = 1_000_000_000_000_000_000;

/// Nanoradians per 1e-7 degree: 1e-7 * pi / 180 * 1e9, rounded.
pub const NANORAD_PER_E7DEG: u64 = 1_745_329_252;

/// pi scaled by 1e9, rounded.
pub const PI_E9: u64 = 3_141_592_654;

/// pi / 2 scaled by 1e9, rounded.
pub const HALF_PI_E9: u64 = 1_570_796_327;

/// pi / 4 scaled by 1e9, rounded.
pub const QUARTER_PI_E9: u64 = 785_398_163;

/// tan(pi / 8) scaled by 1e9, rounded down: the argument-reduction threshold
/// of the arctangent series.
pub const ATAN_REDUCE_E9: u64 = 414_213_562;

/// Mean Earth radius in centimeters.
pub const EARTH_RADIUS_CM: u64 = 637_130_200;

/// Travel speed in kilometers per hour.
pub struct Kmh(pub u32);

/// The travel modes a query can ask for and an edge can carry.
#[derive(Debug, Copy, Clone, PartialEq, Eq, Structural)]
pub enum TransportKind {
    Foot,
    Car,
}

/// Fixed speed assigned to each travel mode, in km/h.
pub open spec fn spec_speed_kmh(kind: TransportKind) -> int {
    match kind {
        TransportKind::Foot => 5,
        TransportKind::Car => 50,
    }
}

impl TransportKind {
    /// The fixed speed of this mode.
    pub fn get_speed(&self) -> (s: Kmh)
        ensures
            s.0 == spec_speed_kmh(*self),
            s.0 > 0,
    {
        match self {
            TransportKind::Foot => Kmh(5),
            TransportKind::Car => Kmh(50),
        }
    }

    pub fn is_foot(&self) -> (r: bool)
        ensures
            r == (*self is Foot),
    {
        match self {
            TransportKind::Foot => true,
            TransportKind::Car => false,
        }
    }

    pub fn is_car(&self) -> (r: bool)
        ensures
            r == (*self is Car),
    {
        match self {
            TransportKind::Foot => false,
            TransportKind::Car => true,
        }
    }
}

/// A latitude/longitude pair within the valid degree range, in 1e-7 degrees.
pub open spec fn valid_coord(lat: int, lon: int) -> bool {
    &&& -900_000_000 <= lat <= 900_000_000
    &&& -1_800_000_000 <= lon <= 1_800_000_000
}

/// Time in milliseconds to cover `len_cm` centimeters at `kmh` km/h, rounded
/// to the nearest millisecond: a speed of `kmh` km/h is `kmh / 36` cm/ms, so
/// the exact travel time is `len_cm * 36 / kmh` milliseconds.
pub open spec fn spec_travel_time_ms(len_cm: int, kmh: int) -> int
    recommends
        kmh > 0,
{
    (len_cm * 72 + kmh) / (2 * kmh)
}

/// Milliseconds needed to cover `len_cm` centimeters at speed `speed`.
pub fn travel_time_ms(len_cm: u32, speed: Kmh) -> (t: u64)
    requires
        speed.0 > 0,
    ensures
        t == spec_travel_time_ms(len_cm as int, speed.0 as int),
        t <= 0x49_0000_0000,
{
    let num: u64 = (len_cm as u64) * 72 + (speed.0 as u64);
    let den: u64 = 2 * (speed.0 as u64);
    proof {
        lemma_div_is_ordered(num as int, 0x49_0000_0000 * den as int, den as int);
        assert((0x49_0000_0000 * den as int) / (den as int) == 0x49_0000_0000) by (nonlinear_arith)
            requires den >= 1;
    }
    num / den
}

/// Bounded inputs to a multiply-then-divide step give a bounded result.
proof fn lemma_mul_div_bound(a: int, amax: int, b: int, bmax: int, d: int)
    requires
        0 <= a <= amax,
        0 <= b <= bmax,
        1 <= d,
    ensures
        0 <= (a * b) / d <= (amax * bmax) / d,
{
    lemma_mul_upper_bound(a, amax, b, bmax);
    lemma_mul_nonnegative(a, b);
    lemma_div_is_ordered(a * b, amax * bmax, d);
    lemma_div_pos_is_pos(a * b, d);
}

/// Converts a non-negative 1e-7 degree value to nanoradians (truncated).
pub open spec fn spec_to_nanorad(d: int) -> int {
    (d * NANORAD_PER_E7DEG) / (SCALE as int)
}

fn to_nanorad(d: u64) -> (r: u64)
    requires
        d <= 3_600_000_000,
    ensures
        r == spec_to_nanorad(d as int),
        r <= 6_283_185_307,
{
    proof {
        lemma_mul_div_bound(
            d as int,
            3_600_000_000,
            NANORAD_PER_E7DEG as int,
            NANORAD_PER_E7DEG as int,
            SCALE as int,
        );
    }
    ((d as u128) * (NANORAD_PER_E7DEG as u128) / SCALE) as u64
}

/// The integer square root: the unique `r >= 0` with `r * r <= n < (r+1) * (r+1)`.
pub open spec fn spec_isqrt(n: int) -> int {
    choose|r: int| 0 <= r && #[trigger] (r * r) <= n && n < (r + 1) * (r + 1)
}

proof fn lemma_isqrt_unique(n: int, r: int)
    requires
        0 <= r,
        r * r <= n,
        n < (r + 1) * (r + 1),
    ensures
        spec_isqrt(n) == r,
{
    assert(0 <= r && r * r <= n && n < (r + 1) * (r + 1));
    let c = spec_isqrt(n);
    assert(0 <= c && c * c <= n && n < (c + 1) * (c + 1));
    assert(c == r) by (nonlinear_arith)
        requires
            0 <= r,
            r * r <= n,
            n < (r + 1) * (r + 1),
            0 <= c,
            c * c <= n,
            n < (c + 1) * (c + 1),
    ;
}

/// Integer square root of a value up to 1e18, by bisection.
fn isqrt(n: u128) -> (r: u64)
    requires
        n <= SCALE2,
    ensures
        r as int == spec_isqrt(n as int),
        r * r <= n < (r + 1) * (r + 1),
        r <= 1_000_000_000,
{
    let mut lo: u128 = 0;
    let mut hi: u128 = 1_000_000_001;
    proof {
        assert((1_000_000_001 as int) * (1_000_000_001 as int) > SCALE2);
    }
    while hi - lo > 1
        invariant
            lo < hi <= 1_000_000_001,
            lo * lo <= n,
            n < hi * hi,
        decreases hi - lo,
    {
        let mid: u128 = lo + (hi - lo) / 2;
        proof {
            lemma_mul_upper_bound(mid as int, 1_000_000_001, mid as int, 1_000_000_001);
        }
        if mid * mid <= n {
            lo = mid;
        } else {
            hi = mid;
        }
    }
    proof {
        assert(hi == lo + 1);
        lemma_isqrt_unique(n as int, lo as int);
    }
    lo as u64
}

/// Truncated sine series at scale 1e9, for arguments in [0, pi/2],
/// clamped to [0, 1e9].
pub open spec fn spec_sin_e9(x: int) -> int {
    let s = SCALE as int;
    let x2 = (x * x) / s;
    let t3 = (x * x2) / s;
    let t5 = (t3 * x2) / s;
    let t7 = (t5 * x2) / s;
    let t9 = (t7 * x2) / s;
    let t11 = (t9 * x2) / s;
    let t13 = (t11 * x2) / s;
    let raw = x - t3 / 6 + t5 / 120 - t7 / 5040 + t9 / 362880 - t11 / 39916800 + t13
        / 6227020800;
    if raw < 0 {
        0
    } else if raw > s {
        s
    } else {
        raw
    }
}

fn sin_e9(x: u64) -> (r: u64)
    requires
        x <= HALF_PI_E9,
    ensures
        r == spec_sin_e9(x as int),
        r <= 1_000_000_000,
{
    let xw: u128 = x as u128;
    proof {
        lemma_mul_div_bound(xw as int, 1_570_796_327, xw as int, 1_570_796_327, SCALE as int);
    }
    let x2: u128 = xw * xw / SCALE;
    proof {
        lemma_mul_div_bound(xw as int, 1_570_796_327, x2 as int, 2_467_401_110, SCALE as int);
    }
    let t3: u128 = xw * x2 / SCALE;
    proof {
        lemma_mul_div_bound(t3 as int, 3_880_000_000, x2 as int, 2_467_401_110, SCALE as int);
    }
    let t5: u128 = t3 * x2 / SCALE;
    proof {
        lemma_mul_div_bound(t5 as int, 9_600_000_000, x2 as int, 2_467_401_110, SCALE as int);
    }
    let t7: u128 = t5 * x2 / SCALE;
    proof {
        lemma_mul_div_bound(t7 as int, 23_700_000_000, x2 as int, 2_467_401_110, SCALE as int);
    }
    let t9: u128 = t7 * x2 / SCALE;
    proof {
        lemma_mul_div_bound(t9 as int, 58_500_000_000, x2 as int, 2_467_401_110, SCALE as int);
    }
    let t11: u128 = t9 * x2 / SCALE;
    proof {
        lemma_mul_div_bound(t11 as int, 144_400_000_000, x2 as int, 2_467_401_110, SCALE as int);
    }
    let t13: u128 = t11 * x2 / SCALE;
    let raw: i128 = (xw as i128) - (t3 / 6) as i128 + (t5 / 120) as i128 - (t7 / 5040) as i128 + (
    t9 / 362880) as i128 - (t11 / 39916800) as i128 + (t13 / 6227020800) as i128;
    if raw < 0 {
        0
    } else if raw > 1_000_000_000 {
        1_000_000_000
    } else {
        raw as u64
    }
}

/// Truncated cosine series at scale 1e9, for arguments in [0, pi/2],
/// clamped to [0, 1e9].
pub open spec fn spec_cos_e9(x: int) -> int {
    let s = SCALE as int;
    let x2 = (x * x) / s;
    let p4 = (x2 * x2) / s;
    let p6 = (p4 * x2) / s;
    let p8 = (p6 * x2) / s;
    let p10 = (p8 * x2) / s;
    let p12 = (p10 * x2) / s;
    let raw = s - x2 / 2 + p4 / 24 - p6 / 720 + p8 / 40320 - p10 / 3628800 + p12 / 479001600;
    if raw < 0 {
        0
    } else if raw > s {
        s
    } else {
        raw
    }
}

fn cos_e9(x: u64) -> (r: u64)
    requires
        x <= HALF_PI_E9,
    ensures
        r == spec_cos_e9(x as int),
        r <= 1_000_000_000,
{
    let xw: u128 = x as u128;
    proof {
        lemma_mul_div_bound(xw as int, 1_570_796_327, xw as int, 1_570_796_327, SCALE as int);
    }
    let x2: u128 = xw * xw / SCALE;
    proof {
        lemma_mul_div_bound(x2 as int, 2_467_401_110, x2 as int, 2_467_401_110, SCALE as int);
    }
    let p4: u128 = x2 * x2 / SCALE;
    proof {
        lemma_mul_div_bound(p4 as int, 6_090_000_000, x2 as int, 2_467_401_110, SCALE as int);
    }
    let p6: u128 = p4 * x2 / SCALE;
    proof {
        lemma_mul_div_bound(p6 as int, 15_100_000_000, x2 as int, 2_467_401_110, SCALE as int);
    }
    let p8: u128 = p6 * x2 / SCALE;
    proof {
        lemma_mul_div_bound(p8 as int, 37_300_000_000, x2 as int, 2_467_401_110, SCALE as int);
    }
    let p10: u128 = p8 * x2 / SCALE;
    proof {
        lemma_mul_div_bound(p10 as int, 92_100_000_000, x2 as int, 2_467_401_110, SCALE as int);
    }
    let p12: u128 = p10 * x2 / SCALE;
    let raw: i128 = 1_000_000_000i128 - (x2 / 2) as i128 + (p4 / 24) as i128 - (p6 / 720) as i128
        + (p8 / 40320) as i128 - (p10 / 3628800) as i128 + (p12 / 479001600) as i128;
    if raw < 0 {
        0
    } else if raw > 1_000_000_000 {
        1_000_000_000
    } else {
        raw as u64
    }
}

/// Truncated arctangent series at scale 1e9, for arguments in
/// [0, tan(pi/8)], clamped to [0, 5e8].
pub open spec fn spec_atan_poly_e9(w: int) -> int {
    let s = SCALE as int;
    let w2 = (w * w) / s;
    let p3 = (w * w2) / s;
    let p5 = (p3 * w2) / s;
    let p7 = (p5 * w2) / s;
    let p9 = (p7 * w2) / s;
    let p11 = (p9 * w2) / s;
    let p13 = (p11 * w2) / s;
    let p15 = (p13 * w2) / s;
    let p17 = (p15 * w2) / s;
    let p19 = (p17 * w2) / s;
    let raw = w - p3 / 3 + p5 / 5 - p7 / 7 + p9 / 9 - p11 / 11 + p13 / 13 - p15 / 15 + p17 / 17
        - p19 / 19;
    if raw < 0 {
        0
    } else if raw > 500_000_000 {
        500_000_000
    } else {
        raw
    }
}

fn atan_poly_e9(w: u64) -> (r: u64)
    requires
        w <= 414_213_563,
    ensures
        r == spec_atan_poly_e9(w as int),
        r <= 500_000_000,
{
    let ww: u128 = w as u128;
    proof {
        lemma_mul_div_bound(ww as int, 414_213_563, ww as int, 414_213_563, SCALE as int);
    }
    let w2: u128 = ww * ww / SCALE;
    proof {
        lemma_mul_div_bound(ww as int, 414_213_563, w2 as int, 171_572_876, SCALE as int);
    }
    let p3: u128 = ww * w2 / SCALE;
    proof {
        lemma_mul_div_bound(p3 as int, 71_100_000, w2 as int, 171_572_876, SCALE as int);
    }
    let p5: u128 = p3 * w2 / SCALE;
    proof {
        lemma_mul_div_bound(p5 as int, 12_200_000, w2 as int, 171_572_876, SCALE as int);
    }
    let p7: u128 = p5 * w2 / SCALE;
    proof {
        lemma_mul_div_bound(p7 as int, 2_100_000, w2 as int, 171_572_876, SCALE as int);
    }
    let p9: u128 = p7 * w2 / SCALE;
    proof {
        lemma_mul_div_bound(p9 as int, 361_000, w2 as int, 171_572_876, SCALE as int);
    }
    let p11: u128 = p9 * w2 / SCALE;
    proof {
        lemma_mul_div_bound(p11 as int, 62_000, w2 as int, 171_572_876, SCALE as int);
    }
    let p13: u128 = p11 * w2 / SCALE;
    proof {
        lemma_mul_div_bound(p13 as int, 10_700, w2 as int, 171_572_876, SCALE as int);
    }
    let p15: u128 = p13 * w2 / SCALE;
    proof {
        lemma_mul_div_bound(p15 as int, 1_840, w2 as int, 171_572_876, SCALE as int);
    }
    let p17: u128 = p15 * w2 / SCALE;
    proof {
        lemma_mul_div_bound(p17 as int, 320, w2 as int, 171_572_876, SCALE as int);
    }
    let p19: u128 = p17 * w2 / SCALE;
    let raw: i128 = (ww as i128) - (p3 / 3) as i128 + (p5 / 5) as i128 - (p7 / 7) as i128 + (p9
        / 9) as i128 - (p11 / 11) as i128 + (p13 / 13) as i128 - (p15 / 15) as i128 + (p17
        / 17) as i128 - (p19 / 19) as i128;
    if raw < 0 {
        0
    } else if raw > 500_000_000 {
        500_000_000
    } else {
        raw as u64
    }
}

/// Arctangent of `y / x` in nanoradians, for `0 <= y <= x`, `x > 0`.
pub open spec fn spec_atan_div_e9(y: int, x: int) -> int {
    let s = SCALE as int;
    let q = (y * s) / x;
    if q > ATAN_REDUCE_E9 {
        QUARTER_PI_E9 - spec_atan_poly_e9(((s - q) * s) / (s + q))
    } else {
        spec_atan_poly_e9(q)
    }
}

fn atan_div_e9(y: u64, x: u64) -> (r: u64)
    requires
        y <= x,
        1 <= x <= 1_000_000_000,
    ensures
        r == spec_atan_div_e9(y as int, x as int),
        r <= QUARTER_PI_E9,
{
    proof {
        lemma_mul_nonnegative(y as int, SCALE as int);
        vstd::arithmetic::mul::lemma_mul_inequality(y as int, x as int, SCALE as int);
        lemma_div_is_ordered((y * SCALE) as int, (x as int) * (SCALE as int), x as int);
        vstd::arithmetic::div_mod::lemma_div_by_multiple(SCALE as int, x as int);
        lemma_div_pos_is_pos((y * SCALE) as int, x as int);
    }
    let q: u64 = ((y as u128) * SCALE / (x as u128)) as u64;
    if q > ATAN_REDUCE_E9 {
        proof {
            lemma_mul_nonnegative((SCALE as int) - q as int, SCALE as int);
            lemma_mul_upper_bound(
                (SCALE as int) - q as int,
                585_786_437,
                SCALE as int,
                SCALE as int,
            );
            lemma_div_is_ordered(
                ((SCALE as int) - q as int) * (SCALE as int),
                585_786_437_000_000_000,
                (SCALE as int) + q as int,
            );
            lemma_div_is_ordered_by_denominator(
                585_786_437_000_000_000,
                1_414_213_563,
                (SCALE as int) + q as int,
            );
            lemma_div_pos_is_pos(
                ((SCALE as int) - q as int) * (SCALE as int),
                (SCALE as int) + q as int,
            );
        }
        let w: u64 = (((SCALE - q as u128) * SCALE) / (SCALE + q as u128)) as u64;
        let p = atan_poly_e9(w);
        QUARTER_PI_E9 - p
    } else {
        atan_poly_e9(q)
    }
}

/// Arctangent of the direction `(x, y)` with both components
/// non-negative and not both zero, in nanoradians.
pub open spec fn spec_atan2_e9(y: int, x: int) -> int {
    if y <= x {
        spec_atan_div_e9(y, x)
    } else {
        HALF_PI_E9 - spec_atan_div_e9(x, y)
    }
}

fn atan2_e9(y: u64, x: u64) -> (r: u64)
    requires
        y <= 1_000_000_000,
        x <= 1_000_000_000,
        x + y >= 1,
    ensures
        r == spec_atan2_e9(y as int, x as int),
        r <= HALF_PI_E9,
{
    if y <= x {
        atan_div_e9(y, x)
    } else {
        HALF_PI_E9 - atan_div_e9(x, y)
    }
}

/// Absolute difference.
pub open spec fn spec_abs_diff(a: int, b: int) -> int {
    if a >= b {
        a - b
    } else {
        b - a
    }
}

/// Great-circle distance in whole centimeters between two coordinate pairs
/// given in 1e-7 degrees, by the haversine formula over a mean Earth radius,
/// in scaled integer arithmetic.
pub open spec fn spec_distance_cm(lat1: int, lon1: int, lat2: int, lon2: int) -> int {
    let s = SCALE as int;
    let s2 = SCALE2 as int;
    let half_dlat = spec_to_nanorad(spec_abs_diff(lat2, lat1)) / 2;
    let half_dlon0 = spec_to_nanorad(spec_abs_diff(lon2, lon1)) / 2;
    let half_dlon = if half_dlon0 > HALF_PI_E9 {
        PI_E9 - half_dlon0
    } else {
        half_dlon0
    };
    let h1 = spec_sin_e9(half_dlat);
    let h2 = spec_sin_e9(half_dlon);
    let c1 = spec_cos_e9(spec_to_nanorad(if lat1 >= 0 { lat1 } else { -lat1 }));
    let c2 = spec_cos_e9(spec_to_nanorad(if lat2 >= 0 { lat2 } else { -lat2 }));
    let hav0 = h1 * h1 + ((c1 * h2) / s) * ((c2 * h2) / s);
    let hav = if hav0 > s2 { s2 } else { hav0 };
    let sq = spec_isqrt(hav);
    let tq = spec_isqrt(s2 - hav);
    let c_nanorad = 2 * spec_atan2_e9(sq, tq);
    (c_nanorad * EARTH_RADIUS_CM) / s
}

/// Great-circle distance in centimeters between two points given as
/// latitude/longitude in 1e-7 degrees.
#[verifier::rlimit(100)]
pub fn distance(lat1: i64, lon1: i64, lat2: i64, lon2: i64) -> (d: u32)
    requires
        valid_coord(lat1 as int, lon1 as int),
        valid_coord(lat2 as int, lon2 as int),
    ensures
        d == spec_distance_cm(lat1 as int, lon1 as int, lat2 as int, lon2 as int),
        d <= 2_100_000_000,
{
    let dlat_e7: u64 = if lat2 >= lat1 {
        (lat2 - lat1) as u64
    } else {
        (lat1 - lat2) as u64
    };
    let dlon_e7: u64 = if lon2 >= lon1 {
        (lon2 - lon1) as u64
    } else {
        (lon1 - lon2) as u64
    };
    let half_dlat: u64 = to_nanorad(dlat_e7) / 2;
    let half_dlon0: u64 = to_nanorad(dlon_e7) / 2;
    let half_dlon: u64 = if half_dlon0 > HALF_PI_E9 {
        PI_E9 - half_dlon0
    } else {
        half_dlon0
    };
    let h1 = sin_e9(half_dlat);
    let h2 = sin_e9(half_dlon);
    let abs_lat1: u64 = if lat1 >= 0 {
        lat1 as u64
    } else {
        (-lat1) as u64
    };
    let abs_lat2: u64 = if lat2 >= 0 {
        lat2 as u64
    } else {
        (-lat2) as u64
    };
    let c1 = cos_e9(to_nanorad(abs_lat1));
    let c2 = cos_e9(to_nanorad(abs_lat2));
    proof {
        lemma_mul_upper_bound(h1 as int, 1_000_000_000, h1 as int, 1_000_000_000);
        lemma_mul_nonnegative(h1 as int, h1 as int);
        lemma_mul_div_bound(c1 as int, 1_000_000_000, h2 as int, 1_000_000_000, SCALE as int);
        lemma_mul_div_bound(c2 as int, 1_000_000_000, h2 as int, 1_000_000_000, SCALE as int);
    }
    let t1: u128 = (h1 as u128) * (h1 as u128);
    let u1: u128 = (c1 as u128) * (h2 as u128) / SCALE;
    let u2: u128 = (c2 as u128) * (h2 as u128) / SCALE;
    proof {
        lemma_mul_upper_bound(u1 as int, 1_000_000_000, u2 as int, 1_000_000_000);
        lemma_mul_nonnegative(u1 as int, u2 as int);
    }
    let t2: u128 = u1 * u2;
    let hav0: u128 = t1 + t2;
    let hav: u128 = if hav0 > SCALE2 {
        SCALE2
    } else {
        hav0
    };
    let sq: u64 = isqrt(hav);
    let tq: u64 = isqrt(SCALE2 - hav);
    proof {
        if sq == 0 && tq == 0 {
            assert(hav < 1) by (nonlinear_arith)
                requires
                    sq == 0,
                    hav < (sq + 1) * (sq + 1),
            ;
            assert(SCALE2 - hav < 1) by (nonlinear_arith)
                requires
                    tq == 0,
                    SCALE2 - hav < (tq + 1) * (tq + 1),
            ;
            assert(false);
        }
    }
    let c_nanorad: u64 = 2 * atan2_e9(sq, tq);
    proof {
        lemma_mul_div_bound(
            c_nanorad as int,
            3_141_592_654,
            EARTH_RADIUS_CM as int,
            EARTH_RADIUS_CM as int,
            SCALE as int,
        );
    }
    ((c_nanorad as u128) * (EARTH_RADIUS_CM as u128) / SCALE) as u32
}

/// Straight-line travel time in milliseconds between two points at `speed`.
pub fn distance_t(lat1: i64, lon1: i64, lat2: i64, lon2: i64, speed: Kmh) -> (t: u64)
    requires
        valid_coord(lat1 as int, lon1 as int),
        valid_coord(lat2 as int, lon2 as int),
        speed.0 > 0,
    ensures
        t == spec_travel_time_ms(
            spec_distance_cm(lat1 as int, lon1 as int, lat2 as int, lon2 as int),
            speed.0 as int,
        ),
        t <= 0x49_0000_0000,
{
    let cm = distance(lat1, lon1, lat2, lon2);
    travel_time_ms(cm, speed)
}

/// The great-circle distance of a point to itself is zero.
pub proof fn lemma_distance_self_zero(lat: int, lon: int)
    ensures
        spec_distance_cm(lat, lon, lat, lon) == 0,
{
    let s = SCALE as int;
    assert(spec_abs_diff(lat, lat) == 0);
    assert(spec_abs_diff(lon, lon) == 0);
    assert(spec_to_nanorad(0) == 0);
    assert(spec_sin_e9(0) == 0);
    lemma_isqrt_unique(0, 0);
    assert((1_000_000_000int) * (1_000_000_000int) <= SCALE2 as int);
    assert((SCALE2 as int) < (1_000_000_001int) * (1_000_000_001int));
    lemma_isqrt_unique(SCALE2 as int, 1_000_000_000);
    assert(spec_atan_poly_e9(0) == 0);
    assert(spec_atan_div_e9(0, 1_000_000_000) == 0) by {
        assert((0int * s) / 1_000_000_000 == 0);
    }
    assert(spec_atan2_e9(0, 1_000_000_000) == 0);
}

/// The great-circle distance does not depend on the order of its endpoints.
#[verifier::rlimit(100)]
pub proof fn lemma_distance_symmetric(lat1: int, lon1: int, lat2: int, lon2: int)
    ensures
        spec_distance_cm(lat1, lon1, lat2, lon2) == spec_distance_cm(lat2, lon2, lat1, lon1),
{
    let s = SCALE as int;
    assert(spec_abs_diff(lat2, lat1) == spec_abs_diff(lat1, lat2));
    assert(spec_abs_diff(lon2, lon1) == spec_abs_diff(lon1, lon2));
    let half_dlat = spec_to_nanorad(spec_abs_diff(lat2, lat1)) / 2;
    let half_dlon0 = spec_to_nanorad(spec_abs_diff(lon2, lon1)) / 2;
    let half_dlon = if half_dlon0 > HALF_PI_E9 {
        PI_E9 - half_dlon0
    } else {
        half_dlon0
    };
    let h1 = spec_sin_e9(half_dlat);
    let h2 = spec_sin_e9(half_dlon);
    let c1 = spec_cos_e9(spec_to_nanorad(if lat1 >= 0 { lat1 } else { -lat1 }));
    let c2 = spec_cos_e9(spec_to_nanorad(if lat2 >= 0 { lat2 } else { -lat2 }));
    assert(((c1 * h2) / s) * ((c2 * h2) / s) == ((c2 * h2) / s) * ((c1 * h2) / s));
    assert(h1 * h1 + ((c1 * h2) / s) * ((c2 * h2) / s) == h1 * h1 + ((c2 * h2) / s) * ((c1 * h2)
        / s));
}

} // verus!
