//! A fixed catalog of easing curves over the unit interval, in fixed point.
//!
//! Inputs and outputs are held in millionths: `UNIT` stands for 1.
use vstd::prelude::*;
use crate::fixed::{floor_div, lemma_div_abs_bound};

verus! {

/// Millionths per unit: the fixed-point scale of tween inputs and outputs.
pub const UNIT: i64 = 1_000_000;

/// How close to 0 and to 1 the ends of a sub-range must be for it to count as
/// the whole interval (ten millionths).
pub const RANGE_EPS: i64 = 10;

/// Largest magnitude of a sub-range end (sixteen units).
pub const MAX_RANGE: i64 = 16_000_000;

/// Largest magnitude of a tween's output (a thousand units); outputs beyond
/// it are held at it.
pub const MAX_OUTPUT: i64 = 1_000_000_000;

/// Bound on the base of a power evaluated by the catalog.
pub const POW_BASE_MAX: i128 = 34_000_000;

/// Bound on the magnitude of any curve of the catalog on `[-MAX_RANGE, MAX_RANGE]`.
pub const CURVE_MAX: i128 = 50_000_000_000_000_000_000_000_000_000_000;

/// The degree of a power curve.
#[derive(PartialEq, Eq, Structural, Clone, Copy, Debug)]
pub enum Power {
    Quad,
    Cubic,
    Quart,
    Quint,
}

/// An easing curve of the catalog.
#[derive(PartialEq, Eq, Structural, Clone, Copy, Debug)]
pub enum Ease {
    /// Stays at 0: the value holds until the next keyframe.
    Hold,
    /// Jumps to 1 at once.
    Jump,
    /// The identity.
    Linear,
    /// `x^k`.
    In(Power),
    /// `1 - (1 - x)^k`.
    Out(Power),
    /// `In` on the first half, `Out` on the second, scaled to meet at one half.
    InOut(Power),
    /// Overshooting cubic `c3 x^3 - c1 x^2` with `c1 = 1.70158`, and its mirror
    /// and two-sided forms.
    Back(Shape),
    /// A ball's bounce: four parabolic arcs, and its mirror and two-sided forms.
    Bounce(Shape),
    /// A quarter circle `1 - sqrt(1 - x^2)`, and its mirror and two-sided forms.
    Circ(Shape),
}

/// Which end of a curve eases.
#[derive(PartialEq, Eq, Structural, Clone, Copy, Debug)]
pub enum Shape {
    In,
    Out,
    InOut,
}

/// A tween: a curve of the catalog, either over the whole unit interval or
/// restricted to a sub-range `[lo, hi]` of its domain.
#[derive(PartialEq, Eq, Structural, Clone, Copy, Debug)]
pub enum Tween {
    Plain(Ease),
    Clamped(Ease, i64, i64),
}

pub open spec fn degree(p: Power) -> nat {
    match p {
        Power::Quad => 2,
        Power::Cubic => 3,
        Power::Quart => 4,
        Power::Quint => 5,
    }
}

pub open spec fn ipow(z: int, k: nat) -> int
    decreases k,
{
    if k == 0 {
        1
    } else {
        z * ipow(z, (k - 1) as nat)
    }
}

/// `x^k` in millionths.
pub open spec fn pow_in(k: nat, x: int) -> int {
    ipow(x, k) / ipow(UNIT as int, (k - 1) as nat)
}

/// `1 - (1 - x)^k` in millionths.
pub open spec fn pow_out(k: nat, x: int) -> int {
    UNIT - ipow(UNIT - x, k) / ipow(UNIT as int, (k - 1) as nat)
}

/// `(2x)^k / 2` below one half, `1 - (2 - 2x)^k / 2` from one half on, in millionths.
pub open spec fn pow_in_out(k: nat, x: int) -> int {
    if 2 * x < UNIT {
        ipow(2 * x, k) / (2 * ipow(UNIT as int, (k - 1) as nat))
    } else {
        UNIT - ipow(2 * UNIT - 2 * x, k) / (2 * ipow(UNIT as int, (k - 1) as nat))
    }
}

/// The value of a curve at `x`, both in millionths.
pub open spec fn ease_value(e: Ease, x: int) -> int {
    match e {
        Ease::Hold => 0,
        Ease::Jump => UNIT as int,
        Ease::Linear => x,
        Ease::In(p) => pow_in(degree(p), x),
        Ease::Out(p) => pow_out(degree(p), x),
        Ease::InOut(p) => pow_in_out(degree(p), x),
        Ease::Back(Shape::In) => back_in(x),
        Ease::Back(Shape::Out) => back_out(x),
        Ease::Back(Shape::InOut) => back_in_out(x),
        Ease::Bounce(Shape::In) => UNIT - bounce_out(UNIT - x),
        Ease::Bounce(Shape::Out) => bounce_out(x),
        Ease::Bounce(Shape::InOut) => if 2 * x < UNIT {
            (UNIT - bounce_out(UNIT - 2 * x)) / 2
        } else {
            (UNIT + bounce_out(2 * x - UNIT)) / 2
        },
        Ease::Circ(Shape::In) => UNIT - circle(x),
        Ease::Circ(Shape::Out) => circle(x - UNIT),
        Ease::Circ(Shape::InOut) => if 2 * x < UNIT {
            (UNIT - circle(2 * x)) / 2
        } else {
            (circle(2 * UNIT - 2 * x) + UNIT) / 2
        },
    }
}

/// `r` is the integer square root of `n`.
pub open spec fn is_root(n: int, r: int) -> bool {
    0 <= r && r * r <= n < (r + 1) * (r + 1)
}

/// The integer square root of `n`, or 0 for negative `n`.
pub open spec fn isqrt(n: int) -> int {
    if n < 0 {
        0
    } else {
        choose|r: int| is_root(n, r)
    }
}

/// `sqrt(1 - y^2)` in millionths, 0 where `|y| > 1`.
pub open spec fn circle(y: int) -> int {
    isqrt(UNIT * UNIT - y * y)
}

proof fn lemma_root_unique(n: int, a: int, b: int)
    requires
        is_root(n, a),
        is_root(n, b),
    ensures
        a == b,
{
    if a < b {
        assert((a + 1) * (a + 1) <= b * b) by (nonlinear_arith)
            requires
                0 <= a < b,
        ;
    } else if b < a {
        assert((b + 1) * (b + 1) <= a * a) by (nonlinear_arith)
            requires
                0 <= b < a,
        ;
    }
}

/// `isqrt` computed, for `n` up to `UNIT^2`.
fn isqrt_exec(n: i128) -> (r: i128)
    requires
        n <= 1_000_000_000_000,
    ensures
        r == isqrt(n as int),
        0 <= r <= UNIT,
{
    if n < 0 {
        return 0;
    }
    let mut lo: i128 = 0;
    let mut hi: i128 = UNIT as i128 + 1;
    while hi - lo > 1
        invariant
            0 <= lo < hi <= UNIT + 1,
            lo * lo <= n,
            n < hi * hi,
        decreases hi - lo,
    {
        let mid = lo + (hi - lo) / 2;
        proof {
            assert(0 < (hi - lo) / 2 < hi - lo);
            assert(0 <= mid * mid <= 1_000_002_000_001) by (nonlinear_arith)
                requires
                    0 <= mid <= 1_000_001,
            ;
        }
        if mid * mid <= n {
            lo = mid;
        } else {
            hi = mid;
        }
    }
    proof {
        assert(is_root(n as int, lo as int));
        let c = choose|r: int| is_root(n as int, r);
        lemma_root_unique(n as int, lo as int, c);
    }
    lo
}

fn circle_exec(y: i128) -> (r: i128)
    requires
        -ARG_MAX <= y <= ARG_MAX,
    ensures
        r == circle(y as int),
        0 <= r <= UNIT,
{
    proof {
        assert(0 <= y * y <= ARG_MAX * ARG_MAX) by (nonlinear_arith)
            requires
                -ARG_MAX <= y <= ARG_MAX,
        ;
    }
    isqrt_exec(UNIT as i128 * UNIT as i128 - y * y)
}

/// `x^2` in millionths.
pub open spec fn sq(x: int) -> int {
    x * x / UNIT as int
}

/// `x^3` in millionths.
pub open spec fn cube(x: int) -> int {
    sq(x) * x / UNIT as int
}

/// `2.70158 x^3 - 1.70158 x^2` in millionths.
pub open spec fn back_in(x: int) -> int {
    (270158 * cube(x) - 170158 * sq(x)) / 100000
}

/// `1 + 2.70158 (x - 1)^3 + 1.70158 (x - 1)^2` in millionths.
pub open spec fn back_out(x: int) -> int {
    UNIT + (270158 * cube(x - UNIT) + 170158 * sq(x - UNIT)) / 100000
}

/// The two-sided back curve, with `c2 = 2.5949095`, in millionths.
pub open spec fn back_in_out(x: int) -> int {
    if 2 * x < UNIT {
        sq(2 * x) * ((35949095 * (2 * x) - 25949095 * UNIT) / 10000000) / UNIT as int / 2
    } else {
        let w = 2 * x - 2 * UNIT;
        (sq(w) * ((35949095 * w + 25949095 * UNIT) / 10000000) / UNIT as int + 2 * UNIT) / 2
    }
}

/// The bouncing curve with `n1 = 7.5625`, `d1 = 2.75`, breaks at `1 / d1`,
/// `2 / d1`, `2.5 / d1`, in millionths.
pub open spec fn bounce_out(x: int) -> int {
    if x < 363636 {
        75625 * sq(x) / 10000
    } else if x < 727272 {
        75625 * sq(x - 545454) / 10000 + 750000
    } else if x < 909090 {
        75625 * sq(x - 818181) / 10000 + 937500
    } else {
        75625 * sq(x - 954545) / 10000 + 984375
    }
}

/// `v` held within `[-MAX_OUTPUT, MAX_OUTPUT]`.
pub open spec fn saturate(v: int) -> int {
    if v > MAX_OUTPUT {
        MAX_OUTPUT as int
    } else if v < -MAX_OUTPUT {
        -MAX_OUTPUT as int
    } else {
        v
    }
}

/// The input of the base curve for input `x` of a tween restricted to `[lo, hi]`.
pub open spec fn remap(lo: int, hi: int, x: int) -> int {
    lo + x * (hi - lo) / UNIT as int
}

/// The restricted curve, rescaled so that the ends of the sub-range give 0
/// and 1; where the curve takes one value at both ends it is the identity.
pub open spec fn clamped_value(e: Ease, lo: int, hi: int, x: int) -> int {
    let num = (ease_value(e, remap(lo, hi, x)) - ease_value(e, lo)) * UNIT;
    let den = ease_value(e, hi) - ease_value(e, lo);
    if den > 0 {
        num / den
    } else if den < 0 {
        (-num) / (-den)
    } else {
        x
    }
}

/// The ends of a sub-range are the unit interval to within `RANGE_EPS`.
pub open spec fn is_unit_range(lo: int, hi: int) -> bool {
    -RANGE_EPS < lo < RANGE_EPS && UNIT - RANGE_EPS < hi < UNIT + RANGE_EPS
}

/// The tween of curve `e` over `[lo, hi]`: the plain curve when the range is
/// the unit interval.
pub open spec fn range_tween(e: Ease, lo: i64, hi: i64) -> Tween {
    if is_unit_range(lo as int, hi as int) {
        Tween::Plain(e)
    } else {
        Tween::Clamped(e, lo, hi)
    }
}

impl Tween {
    /// The sub-range ends are within bounds.
    pub open spec fn wf(&self) -> bool {
        match *self {
            Tween::Plain(_) => true,
            Tween::Clamped(_, lo, hi) => -MAX_RANGE <= lo <= MAX_RANGE && -MAX_RANGE <= hi
                <= MAX_RANGE,
        }
    }

    /// The tween's output at input `x` (millionths), before it is held within bounds.
    pub open spec fn raw_value(&self, x: int) -> int {
        match *self {
            Tween::Plain(e) => ease_value(e, x),
            Tween::Clamped(e, lo, hi) => clamped_value(e, lo as int, hi as int, x),
        }
    }

    /// The tween's output at input `x` (millionths).
    pub open spec fn value(&self, x: int) -> int {
        saturate(self.raw_value(x))
    }

    /// The tween of curve `e` over `[lo, hi]`: the plain curve when the range is
    /// the unit interval to within `RANGE_EPS`.
    pub fn clamped(e: Ease, lo: i64, hi: i64) -> (r: Tween)
        requires
            -MAX_RANGE <= lo <= MAX_RANGE,
            -MAX_RANGE <= hi <= MAX_RANGE,
        ensures
            r.wf(),
            r == range_tween(e, lo, hi),
    {
        if -RANGE_EPS < lo && lo < RANGE_EPS && UNIT - RANGE_EPS < hi && hi < UNIT + RANGE_EPS {
            Tween::Plain(e)
        } else {
            Tween::Clamped(e, lo, hi)
        }
    }

    /// The tween's output at input `x`, for `x` in `[0, UNIT]`.
    pub fn eval(&self, x: i64) -> (r: i64)
        requires
            self.wf(),
            0 <= x <= UNIT,
        ensures
            r == self.value(x as int),
            -MAX_OUTPUT <= r <= MAX_OUTPUT,
    {
        let raw: i128 = match *self {
            Tween::Plain(e) => ease(e, x as i128),
            Tween::Clamped(e, lo, hi) => {
                proof {
                    lemma_remap_bound(lo as int, hi as int, x as int);
                }
                let z: i128 = lo as i128 + floor_div(x as i128 * (hi as i128 - lo as i128), UNIT as i128);
                let f0 = ease(e, lo as i128);
                let f1 = ease(e, hi as i128);
                let fz = ease(e, z);
                let num: i128 = (fz - f0) * UNIT as i128;
                let den: i128 = f1 - f0;
                if den > 0 {
                    floor_div(num, den)
                } else if den < 0 {
                    floor_div(-num, -den)
                } else {
                    x as i128
                }
            }
        };
        if raw > MAX_OUTPUT as i128 {
            MAX_OUTPUT
        } else if raw < -MAX_OUTPUT as i128 {
            -MAX_OUTPUT
        } else {
            raw as i64
        }
    }
}

/// For `x` in `[0, UNIT]` the remapped input lies between `lo` and `hi`.
proof fn lemma_remap_bound(lo: int, hi: int, x: int)
    requires
        -MAX_RANGE <= lo <= MAX_RANGE,
        -MAX_RANGE <= hi <= MAX_RANGE,
        0 <= x <= UNIT,
    ensures
        -MAX_RANGE <= remap(lo, hi, x) <= MAX_RANGE,
{
    let d = hi - lo;
    let u = UNIT as int;
    crate::fixed::lemma_div_bounds(x * d, u);
    let q = x * d / u;
    if d >= 0 {
        assert(0 <= x * d <= u * d) by (nonlinear_arith)
            requires 0 <= x <= u, d >= 0;
        assert(0 <= q <= d) by (nonlinear_arith)
            requires q * u <= x * d, x * d < q * u + u, 0 <= x * d <= u * d, u > 0;
    } else {
        assert(u * d <= x * d <= 0) by (nonlinear_arith)
            requires 0 <= x <= u, d < 0;
        assert(d <= q <= 0) by (nonlinear_arith)
            requires q * u <= x * d, x * d < q * u + u, u * d <= x * d <= 0, u > 0;
    }
}

/// `|a * b| <= A * B` when `|a| <= A` and `|b| <= B`.
proof fn lemma_mul_abs_le(a: int, b: int, ba: int, bb: int)
    requires
        -ba <= a <= ba,
        -bb <= b <= bb,
    ensures
        -(ba * bb) <= a * b <= ba * bb,
{
    assert(-(ba * bb) <= a * b <= ba * bb) by (nonlinear_arith)
        requires
            -ba <= a <= ba,
            -bb <= b <= bb,
    ;
}

/// `z^k` for `|z| <= POW_BASE_MAX` and `k <= 5`.
fn pow_exec(z: i128, k: u32) -> (r: i128)
    requires
        -POW_BASE_MAX <= z <= POW_BASE_MAX,
        k <= 5,
    ensures
        r == ipow(z as int, k as nat),
        -ipow(POW_BASE_MAX as int, k as nat) <= r <= ipow(POW_BASE_MAX as int, k as nat),
{
    let mut r: i128 = 1;
    let mut i: u32 = 0;
    while i < k
        invariant
            i <= k <= 5,
            -POW_BASE_MAX <= z <= POW_BASE_MAX,
            r == ipow(z as int, i as nat),
            -ipow(POW_BASE_MAX as int, i as nat) <= r <= ipow(POW_BASE_MAX as int, i as nat),
        decreases k - i,
    {
        proof {
            lemma_ipow_base_le(i as nat);
            lemma_mul_abs_le(r as int, z as int, ipow(POW_BASE_MAX as int, i as nat), POW_BASE_MAX as int);
            assert(ipow(POW_BASE_MAX as int, (i + 1) as nat) == POW_BASE_MAX * ipow(POW_BASE_MAX as int, i as nat));
            assert(ipow(z as int, (i + 1) as nat) == z * ipow(z as int, i as nat));
        }
        r = r * z;
        i += 1;
    }
    r
}

/// Powers of the base bound up to the fourth stay small enough that one more
/// factor fits in 128 bits.
proof fn lemma_ipow_base_le(i: nat)
    requires
        i <= 4,
    ensures
        0 <= ipow(POW_BASE_MAX as int, i) <= ipow(POW_BASE_MAX as int, 4),
        ipow(POW_BASE_MAX as int, 5) == 45_435_424_000_000_000_000_000_000_000_000_000_000,
        ipow(UNIT as int, 1) == UNIT,
{
    reveal_with_fuel(ipow, 6);
}

/// The value of curve `e` at `x`.
fn ease(e: Ease, x: i128) -> (r: i128)
    requires
        -MAX_RANGE <= x <= MAX_RANGE,
    ensures
        r == ease_value(e, x as int),
        -CURVE_MAX <= r <= CURVE_MAX,
{
    match e {
        Ease::Hold => 0,
        Ease::Jump => UNIT as i128,
        Ease::Linear => x,
        Ease::In(p) => {
            let k = power_degree(p);
            let a = pow_exec(x, k);
            let d = pow_exec(UNIT as i128, k - 1);
            proof {
                lemma_unit_pow_ge(k as nat);
                lemma_quot_small(a as int, d as int, k as nat);
            }
            floor_div(a, d)
        }
        Ease::Out(p) => {
            let k = power_degree(p);
            let a = pow_exec(UNIT as i128 - x, k);
            let d = pow_exec(UNIT as i128, k - 1);
            proof {
                lemma_unit_pow_ge(k as nat);
                lemma_quot_small(a as int, d as int, k as nat);
            }
            UNIT as i128 - floor_div(a, d)
        }
        Ease::InOut(p) => {
            let k = power_degree(p);
            let d = pow_exec(UNIT as i128, k - 1);
            proof { lemma_unit_pow_ge(k as nat); }
            if 2 * x < UNIT as i128 {
                let a = pow_exec(2 * x, k);
                proof {
                    lemma_quot_small(a as int, 2 * d as int, k as nat);
                }
                floor_div(a, 2 * d)
            } else {
                let a = pow_exec(2 * UNIT as i128 - 2 * x, k);
                proof {
                    lemma_quot_small(a as int, 2 * d as int, k as nat);
                }
                UNIT as i128 - floor_div(a, 2 * d)
            }
        }
        Ease::Back(Shape::In) => back_in_exec(x),
        Ease::Back(Shape::Out) => back_out_exec(x),
        Ease::Back(Shape::InOut) => back_in_out_exec(x),
        Ease::Bounce(Shape::In) => UNIT as i128 - bounce_out_exec(UNIT as i128 - x),
        Ease::Bounce(Shape::Out) => bounce_out_exec(x),
        Ease::Circ(Shape::In) => UNIT as i128 - circle_exec(x),
        Ease::Circ(Shape::Out) => circle_exec(x - UNIT as i128),
        Ease::Circ(Shape::InOut) => {
            if 2 * x < UNIT as i128 {
                floor_div(UNIT as i128 - circle_exec(2 * x), 2)
            } else {
                floor_div(circle_exec(2 * UNIT as i128 - 2 * x) + UNIT as i128, 2)
            }
        }
        Ease::Bounce(Shape::InOut) => {
            if 2 * x < UNIT as i128 {
                floor_div(UNIT as i128 - bounce_out_exec(UNIT as i128 - 2 * x), 2)
            } else {
                floor_div(UNIT as i128 + bounce_out_exec(2 * x - UNIT as i128), 2)
            }
        }
    }
}

/// Largest argument of `sq` and `cube` used by the catalog.
const ARG_MAX: i128 = 34_000_000;

/// `sq` computed.
fn sq_exec(x: i128) -> (r: i128)
    requires
        -ARG_MAX <= x <= ARG_MAX,
    ensures
        r == sq(x as int),
        0 <= r <= 1_156_000_000,
{
    proof {
        assert(0 <= x * x <= ARG_MAX * ARG_MAX) by (nonlinear_arith)
            requires
                -ARG_MAX <= x <= ARG_MAX,
        ;
        vstd::arithmetic::div_mod::lemma_div_is_ordered(x * x, ARG_MAX * ARG_MAX, UNIT as int);
        vstd::arithmetic::div_mod::lemma_div_pos_is_pos(x * x, UNIT as int);
    }
    floor_div(x * x, UNIT as i128)
}

/// `cube` computed.
fn cube_exec(x: i128) -> (r: i128)
    requires
        -ARG_MAX <= x <= ARG_MAX,
    ensures
        r == cube(x as int),
        -39_304_000_000 <= r <= 39_304_000_000,
{
    let q = sq_exec(x);
    proof {
        assert(-(1_156_000_000 * ARG_MAX) <= q * x <= 1_156_000_000 * ARG_MAX) by (nonlinear_arith)
            requires
                -ARG_MAX <= x <= ARG_MAX,
                0 <= q <= 1_156_000_000,
        ;
        lemma_div_abs_bound(q * x, UNIT as int, UNIT as int, 39_304_000_000);
    }
    floor_div(q * x, UNIT as i128)
}

fn back_in_exec(x: i128) -> (r: i128)
    requires
        -MAX_RANGE <= x <= MAX_RANGE,
    ensures
        r == back_in(x as int),
        -CURVE_MAX <= r <= CURVE_MAX,
{
    let c = cube_exec(x);
    let q = sq_exec(x);
    let v = floor_div(270158 * c - 170158 * q, 100000);
    proof {
        lemma_div_abs_bound(270158 * c - 170158 * q, 100000, 100000, 1_000_000_000_000_000);
    }
    v
}

fn back_out_exec(x: i128) -> (r: i128)
    requires
        -MAX_RANGE <= x <= MAX_RANGE,
    ensures
        r == back_out(x as int),
        -CURVE_MAX <= r <= CURVE_MAX,
{
    let y = x - UNIT as i128;
    let c = cube_exec(y);
    let q = sq_exec(y);
    proof {
        lemma_div_abs_bound(270158 * c + 170158 * q, 100000, 100000, 1_000_000_000_000_000);
    }
    UNIT as i128 + floor_div(270158 * c + 170158 * q, 100000)
}

fn back_in_out_exec(x: i128) -> (r: i128)
    requires
        -MAX_RANGE <= x <= MAX_RANGE,
    ensures
        r == back_in_out(x as int),
        -CURVE_MAX <= r <= CURVE_MAX,
{
    if 2 * x < UNIT as i128 {
        let z = 2 * x;
        let q = sq_exec(z);
        let k = floor_div(35949095 * z - 25949095 * UNIT as i128, 10000000);
        proof {
            lemma_div_abs_bound(35949095 * z - 25949095 * UNIT, 10000000, 10000000, 200_000_000);
            assert(-(1_156_000_000 * 200_000_000) <= q * k <= 1_156_000_000 * 200_000_000)
                by (nonlinear_arith)
                requires
                    0 <= q <= 1_156_000_000,
                    -200_000_000 <= k <= 200_000_000,
            ;
            lemma_div_abs_bound(q * k, UNIT as int, UNIT as int, 231_200_000_000);
        }
        floor_div(floor_div(q * k, UNIT as i128), 2)
    } else {
        let w = 2 * x - 2 * UNIT as i128;
        let q = sq_exec(w);
        let k = floor_div(35949095 * w + 25949095 * UNIT as i128, 10000000);
        proof {
            lemma_div_abs_bound(35949095 * w + 25949095 * UNIT, 10000000, 10000000, 200_000_000);
            assert(-(1_156_000_000 * 200_000_000) <= q * k <= 1_156_000_000 * 200_000_000)
                by (nonlinear_arith)
                requires
                    0 <= q <= 1_156_000_000,
                    -200_000_000 <= k <= 200_000_000,
            ;
            lemma_div_abs_bound(q * k, UNIT as int, UNIT as int, 231_200_000_000);
        }
        floor_div(floor_div(q * k, UNIT as i128) + 2 * UNIT as i128, 2)
    }
}

fn bounce_out_exec(x: i128) -> (r: i128)
    requires
        -33_000_000 <= x <= 33_000_000,
    ensures
        r == bounce_out(x as int),
        0 <= r <= 100_000_000_000,
{
    let (y, base): (i128, i128) = if x < 363636 {
        (x, 0)
    } else if x < 727272 {
        (x - 545454, 750000)
    } else if x < 909090 {
        (x - 818181, 937500)
    } else {
        (x - 954545, 984375)
    };
    let q = sq_exec(y);
    proof {
        vstd::arithmetic::div_mod::lemma_div_is_ordered(75625 * q, 87_422_500_000_000int, 10000);
        vstd::arithmetic::div_mod::lemma_div_pos_is_pos(75625 * q, 10000);
    }
    floor_div(75625 * q, 10000) + base
}

fn power_degree(p: Power) -> (k: u32)
    ensures
        k == degree(p),
{
    match p {
        Power::Quad => 2,
        Power::Cubic => 3,
        Power::Quart => 4,
        Power::Quint => 5,
    }
}

/// `UNIT^(k-1)` is between `UNIT` and `UNIT^4` for degrees 2 to 5.
proof fn lemma_unit_pow_ge(k: nat)
    requires
        2 <= k <= 5,
    ensures
        UNIT <= ipow(UNIT as int, (k - 1) as nat) <= ipow(UNIT as int, 4),
        ipow(UNIT as int, 4) == 1_000_000_000_000_000_000_000_000,
{
    reveal_with_fuel(ipow, 6);
}

/// A power of a bounded base over a divisor of at least `UNIT` is within `CURVE_MAX - UNIT`.
proof fn lemma_quot_small(a: int, d: int, k: nat)
    requires
        2 <= k <= 5,
        d >= UNIT,
        -ipow(POW_BASE_MAX as int, k) <= a <= ipow(POW_BASE_MAX as int, k),
    ensures
        -(CURVE_MAX - UNIT) <= a / d <= CURVE_MAX - UNIT,
        a > i128::MIN,
{
    lemma_pow_le_fifth(k);
    lemma_div_abs_bound(a, d, UNIT as int, 45_435_424_000_000_000_000_000_000_000_000);
}

/// Powers of the base bound up to the fifth are at most the fifth.
proof fn lemma_pow_le_fifth(k: nat)
    requires
        k <= 5,
    ensures
        ipow(POW_BASE_MAX as int, k) <= 45_435_424_000_000_000_000_000_000_000_000_000_000,
{
    reveal_with_fuel(ipow, 6);
}

} // verus!
