//! Integration of a scroll-speed timeline into a scroll-position ("height")
//! timeline.
//!
//! Speeds are millionths of a unit per second, heights millionths of a unit.
//! Between two breakpoints the height follows a quadratic ease whose shape
//! matches a straight speed ramp; eased speed ramps are thus approximated,
//! not integrated exactly.
use vstd::prelude::*;
use crate::anim::{keyframes_ok, time_keys, Anim, Keyframe, Tweenable, MAX_VALUE};
use crate::fixed::floor_div;
use crate::tempo::{sorted_keys, MAX_TIME, SECOND};
use crate::tween::{range_tween, Ease, Power, Tween, MAX_RANGE, UNIT};

verus! {

/// How far before a breakpoint the speed at the end of an interval is read
/// (a ten-thousandth of a second): reading at the breakpoint itself would take
/// a held speed for a ramp.
pub const SAMPLE_GAP: i64 = 100_000;

/// Speeds closer than this (a hundred-thousandth) count as equal.
pub const SPEED_EPS: i64 = 10;

/// Largest magnitude of a speed read from a timeline.
pub const MAX_SAMPLE: i64 = 3_000_000_000_000_000_000;

/// The speed at `t`: 0 on a timeline without keyframes.
pub open spec fn speed_at(speed: Anim<i64>, t: int) -> int {
    if speed.keyframes@.len() == 0 {
        0
    } else {
        speed.value_at(t) as int
    }
}

/// Height gained over `dt` nanoseconds by the trapezoid rule.
pub open spec fn trapezoid(s0: int, s1: int, dt: int) -> int {
    (s0 + s1) * dt / (2 * SECOND as int)
}

/// Speed at the start of the interval that begins at breakpoint `k`.
pub open spec fn start_speed(speed: Anim<i64>, pts: Seq<i64>, k: int) -> int {
    speed_at(speed, pts[k] as int)
}

/// Speed just before the end of the interval that begins at breakpoint `k`.
pub open spec fn end_speed(speed: Anim<i64>, pts: Seq<i64>, k: int) -> int {
    speed_at(speed, pts[k + 1] - SAMPLE_GAP)
}

/// Height reached at breakpoint `k`.
pub open spec fn height_before(speed: Anim<i64>, pts: Seq<i64>, k: int) -> int
    decreases k,
{
    if k <= 0 {
        0
    } else {
        height_before(speed, pts, k - 1) + trapezoid(
            start_speed(speed, pts, k - 1),
            end_speed(speed, pts, k - 1),
            pts[k] - pts[k - 1],
        )
    }
}

/// `v` held within `[-MAX_RANGE, MAX_RANGE]`.
pub open spec fn clamp_range(v: int) -> i64 {
    if v > MAX_RANGE {
        MAX_RANGE
    } else if v < -MAX_RANGE {
        (-MAX_RANGE) as i64
    } else {
        v as i64
    }
}

/// `a / b` in millionths, held within `[-MAX_RANGE, MAX_RANGE]`; a zero `b`
/// gives the bound on the side of `a`'s sign.
pub open spec fn ratio(a: int, b: int) -> i64 {
    if b == 0 {
        if a >= 0 {
            MAX_RANGE
        } else {
            (-MAX_RANGE) as i64
        }
    } else if b > 0 {
        clamp_range(a * UNIT / b)
    } else {
        clamp_range((-a) * UNIT / (-b))
    }
}

/// The tween of the height over an interval whose speed goes from `s0` to `s1`:
/// linear for a steady speed, else the part of a quadratic ease whose slope
/// falls (or rises) in the ratio of the two speeds.
pub open spec fn height_tween(s0: int, s1: int) -> Tween {
    if -SPEED_EPS < s0 - s1 < SPEED_EPS {
        Tween::Plain(Ease::Linear)
    } else if s0 > s1 {
        range_tween(Ease::Out(Power::Quad), 0, clamp_range(UNIT - ratio(s1, s0)))
    } else {
        range_tween(Ease::In(Power::Quad), ratio(s0, s1), UNIT)
    }
}

/// Breakpoints: strictly increasing times, far enough from the bounds that
/// reading just before each stays in range.
pub open spec fn breakpoints_ok(pts: Seq<i64>) -> bool {
    &&& pts.len() >= 1
    &&& forall|i: int, j: int| 0 <= i < j < pts.len() ==> pts[i] < pts[j]
    &&& forall|i: int| 0 <= i < pts.len() ==> -MAX_TIME + SAMPLE_GAP <= #[trigger] pts[i] <= MAX_TIME
}

/// The heights at all breakpoints before `n` fit a keyframe value.
pub open spec fn heights_fit(speed: Anim<i64>, pts: Seq<i64>, n: int) -> bool {
    forall|k: int| 0 <= k < n ==> -MAX_VALUE <= #[trigger] height_before(speed, pts, k) <= MAX_VALUE
}

/// `h` is the height timeline of speed `s` over breakpoints `pts`.
pub open spec fn heights_over(h: Anim<i64>, s: Anim<i64>, pts: Seq<i64>) -> bool {
    &&& h.wf()
    &&& h.keyframes@.len() == pts.len()
    &&& forall|k: int|
        0 <= k < pts.len() ==> {
            &&& (#[trigger] h.keyframes@[k]).time == pts[k]
            &&& h.keyframes@[k].value == height_before(s, pts, k)
        }
    &&& forall|k: int|
        0 <= k < pts.len() - 1 ==> (#[trigger] h.keyframes@[k]).tween == height_tween(
            start_speed(s, pts, k),
            end_speed(s, pts, k),
        )
    &&& h.keyframes@[pts.len() - 1].tween == Tween::Plain(Ease::Hold)
}

/// `clamp_range` computed.
fn clamp_range_exec(v: i128) -> (r: i64)
    ensures
        r == clamp_range(v as int),
{
    if v > MAX_RANGE as i128 {
        MAX_RANGE
    } else if v < -MAX_RANGE as i128 {
        -MAX_RANGE
    } else {
        v as i64
    }
}

/// `ratio` computed.
fn ratio_exec(a: i64, b: i64) -> (r: i64)
    requires
        -MAX_SAMPLE <= a <= MAX_SAMPLE,
        -MAX_SAMPLE <= b <= MAX_SAMPLE,
    ensures
        r == ratio(a as int, b as int),
{
    if b == 0 {
        if a >= 0 {
            MAX_RANGE
        } else {
            -MAX_RANGE
        }
    } else if b > 0 {
        proof {
            assert(-MAX_SAMPLE * UNIT <= a * UNIT <= MAX_SAMPLE * UNIT) by (nonlinear_arith)
                requires
                    -MAX_SAMPLE <= a <= MAX_SAMPLE,
            ;
        }
        clamp_range_exec(floor_div(a as i128 * UNIT as i128, b as i128))
    } else {
        proof {
            assert(-MAX_SAMPLE * UNIT <= (-a) * UNIT <= MAX_SAMPLE * UNIT) by (nonlinear_arith)
                requires
                    -MAX_SAMPLE <= a <= MAX_SAMPLE,
            ;
        }
        clamp_range_exec(floor_div(-(a as i128) * UNIT as i128, -(b as i128)))
    }
}

/// A speed sample is within `MAX_SAMPLE`.
pub proof fn lemma_sample_bound(speed: Anim<i64>, t: int)
    requires
        speed.wf(),
        speed.keyframes@.len() > 0,
    ensures
        -MAX_SAMPLE <= speed_at(speed, t) <= MAX_SAMPLE,
{
    let k = speed.keyframes@;
    let i = crate::tempo::last_at_or_before(time_keys(k), t);
    crate::tempo::lemma_bracket_exists(time_keys(k), t);
    assert(-MAX_TIME <= k[i].time);
    if !(t < k[0].time || i == k.len() - 1) {
        assert(-MAX_TIME <= k[i + 1].time);
        let y = k[i].tween.value(crate::anim::progress(k[i].time as int, k[i + 1].time as int, t));
        let a = k[i].value as int;
        let b = k[i + 1].value as int;
        let d = b - a;
        assert(-(1_000_000_000 * (2 * MAX_VALUE)) <= y * d <= 1_000_000_000 * (2 * MAX_VALUE))
            by (nonlinear_arith)
            requires
                -1_000_000_000 <= y <= 1_000_000_000,
                -2 * MAX_VALUE <= d <= 2 * MAX_VALUE,
        ;
        crate::fixed::lemma_div_abs_bound(y * d, UNIT as int, UNIT as int, 2_000_000_000_000_000_000);
    }
}

/// Builds the height timeline of `speed` over breakpoints `pts`: a keyframe
/// at each breakpoint holding the height reached there, with the tween that
/// shapes the height up to the next breakpoint, and a held final keyframe.
/// Gives `None` when a height leaves the range of keyframe values.
pub fn integrate_speed(speed: &mut Anim<i64>, pts: &Vec<i64>) -> (r: Option<Anim<i64>>)
    requires
        old(speed).wf(),
        breakpoints_ok(pts@),
    ensures
        final(speed).wf(),
        final(speed).keyframes@ == old(speed).keyframes@,
        r is None <==> !heights_fit(*old(speed), pts@, pts@.len() as int),
        r matches Some(h) ==> {
            &&& h.wf()
            &&& h.keyframes@.len() == pts@.len()
            &&& forall|k: int|
                0 <= k < pts@.len() ==> {
                    &&& (#[trigger] h.keyframes@[k]).time == pts@[k]
                    &&& h.keyframes@[k].value == height_before(*old(speed), pts@, k)
                }
            &&& forall|k: int|
                0 <= k < pts@.len() - 1 ==> (#[trigger] h.keyframes@[k]).tween == height_tween(
                    start_speed(*old(speed), pts@, k),
                    end_speed(*old(speed), pts@, k),
                )
            &&& h.keyframes@[pts@.len() - 1].tween == Tween::Plain(Ease::Hold)
        },
{
    let ghost s0 = *speed;
    let n = pts.len();
    let mut kfs: Vec<Keyframe<i64>> = Vec::new();
    let mut height: i64 = 0;
    let mut k: usize = 0;
    let mut overflow = false;
    while k + 1 < n && !overflow
        invariant
            overflow ==> !heights_fit(s0, pts@, n as int),
            speed.wf(),
            speed.keyframes@ == s0.keyframes@,
            s0.wf(),
            n == pts@.len(),
            breakpoints_ok(pts@),
            k < n,
            kfs@.len() == k,
            !overflow ==> height == height_before(s0, pts@, k as int),
            !overflow ==> heights_fit(s0, pts@, k as int + 1),
            forall|j: int|
                0 <= j < k ==> {
                    &&& (#[trigger] kfs@[j]).time == pts@[j]
                    &&& kfs@[j].value == height_before(s0, pts@, j)
                    &&& kfs@[j].tween == height_tween(
                        start_speed(s0, pts@, j),
                        end_speed(s0, pts@, j),
                    )
                    &&& kfs@[j].tween.wf()
                },
        decreases n - k + (if overflow {
            0int
        } else {
            1int
        }),
    {
        let now_time = pts[k];
        let end_time = pts[k + 1];
        assert(pts@[k as int] < pts@[k + 1]);
        let s_start = speed.sample(now_time);
        let s_end = speed.sample(end_time - SAMPLE_GAP);
        proof {
            if s0.keyframes@.len() > 0 {
                lemma_sample_bound(s0, now_time as int);
                lemma_sample_bound(s0, end_time - SAMPLE_GAP);
            }
        }
        let tween = if -SPEED_EPS < s_start - s_end && s_start - s_end < SPEED_EPS {
            Tween::Plain(Ease::Linear)
        } else if s_start > s_end {
            let hi = clamp_range_exec(UNIT as i128 - ratio_exec(s_end, s_start) as i128);
            Tween::clamped(Ease::Out(Power::Quad), 0, hi)
        } else {
            let lo = ratio_exec(s_start, s_end);
            Tween::clamped(Ease::In(Power::Quad), lo, UNIT)
        };
        kfs.push(Keyframe { time: now_time, value: height, tween });
        proof {
            let sum = s_start + s_end;
            let dt = end_time - now_time;
            assert(-2 * MAX_SAMPLE * (2 * MAX_TIME) <= sum * dt <= 2 * MAX_SAMPLE * (2 * MAX_TIME))
                by (nonlinear_arith)
                requires
                    -2 * MAX_SAMPLE <= sum <= 2 * MAX_SAMPLE,
                    0 < dt <= 2 * MAX_TIME,
            ;
            crate::fixed::lemma_div_abs_bound(
                sum * dt,
                2 * SECOND as int,
                2 * SECOND as int,
                1_200_000_000_000_000_000_000_000_000,
            );
        }
        let gain: i128 = floor_div(
            (s_start as i128 + s_end as i128) * (end_time as i128 - now_time as i128),
            2 * SECOND as i128,
        );
        let next: i128 = height as i128 + gain;
        assert(next == height_before(s0, pts@, k + 1));
        if next < -MAX_VALUE as i128 || next > MAX_VALUE as i128 {
            assert(!(-MAX_VALUE <= height_before(s0, pts@, k + 1) <= MAX_VALUE));
            overflow = true;
            kfs.pop();
        } else {
            height = next as i64;
            k += 1;
        }
    }
    if overflow {
        return None;
    }
    kfs.push(Keyframe { time: pts[k], value: height, tween: Tween::Plain(Ease::Hold) });
    proof {
        assert(k + 1 == n);
        let keys = time_keys(kfs@);
        assert forall|a: int, b: int| 0 <= a <= b < keys.len() implies keys[a] <= keys[b] by {
            if a < b {
                assert(pts@[a] < pts@[b]);
            }
        }
        assert forall|j: int| 0 <= j < kfs@.len() implies {
            &&& -MAX_TIME <= #[trigger] kfs@[j].time <= MAX_TIME
            &&& kfs@[j].value.fits()
            &&& kfs@[j].tween.wf()
        } by {
            assert(-MAX_TIME + SAMPLE_GAP <= pts@[j] <= MAX_TIME);
            assert(-MAX_VALUE <= height_before(s0, pts@, j) <= MAX_VALUE);
        }
        assert(keyframes_ok(kfs@));
    }
    Some(Anim::new(kfs))
}

/// A speed timeline as speed events make it: values never below zero, and
/// each keyframe either ramps linearly or holds.
pub open spec fn non_negative_ramps(speed: Anim<i64>) -> bool {
    forall|i: int|
        0 <= i < speed.keyframes@.len() ==> {
            &&& #[trigger] speed.keyframes@[i].value >= 0
            &&& (speed.keyframes@[i].tween == Tween::Plain(Ease::Linear)
                || speed.keyframes@[i].tween == Tween::Plain(Ease::Hold))
        }
}

/// Such a timeline never gives a speed below zero.
proof fn lemma_speed_non_negative(speed: Anim<i64>, t: int)
    requires
        speed.wf(),
        non_negative_ramps(speed),
    ensures
        speed_at(speed, t) >= 0,
{
    let k = speed.keyframes@;
    if k.len() > 0 {
        let keys = time_keys(k);
        crate::tempo::lemma_bracket_exists(keys, t);
        let i = crate::tempo::last_at_or_before(keys, t);
        assert(k[i].value >= 0);
        if !(t < k[0].time || i == k.len() - 1) {
            assert(k[i + 1].value >= 0);
            assert(keys[i] <= t < keys[i + 1]);
            let t0 = k[i].time as int;
            let t1 = k[i + 1].time as int;
            let x = crate::anim::progress(t0, t1, t);
            let num = (t - t0) * UNIT;
            let span = t1 - t0;
            assert(0 <= num < span * UNIT) by (nonlinear_arith)
                requires
                    0 <= t - t0 < span,
                    num == (t - t0) * UNIT,
            ;
            crate::fixed::lemma_div_bounds(num, span);
            assert(0 <= x < UNIT) by (nonlinear_arith)
                requires
                    x == num / span,
                    (num / span) * span <= num,
                    num < (num / span) * span + span,
                    0 <= num < span * UNIT,
                    span > 0,
            ;
            let y = k[i].tween.value(x);
            assert(0 <= y <= UNIT);
            let a = k[i].value as int;
            let b = k[i + 1].value as int;
            let q = y * (b - a) / UNIT as int;
            crate::fixed::lemma_div_bounds(y * (b - a), UNIT as int);
            if b >= a {
                assert(0 <= y * (b - a) <= UNIT * (b - a)) by (nonlinear_arith)
                    requires
                        0 <= y <= UNIT,
                        b >= a,
                ;
                assert(0 <= q <= b - a) by (nonlinear_arith)
                    requires
                        q * UNIT <= y * (b - a),
                        y * (b - a) < q * UNIT + UNIT,
                        0 <= y * (b - a) <= UNIT * (b - a),
                ;
            } else {
                assert(UNIT * (b - a) <= y * (b - a) <= 0) by (nonlinear_arith)
                    requires
                        0 <= y <= UNIT,
                        b < a,
                ;
                assert(b - a <= q <= 0) by (nonlinear_arith)
                    requires
                        q * UNIT <= y * (b - a),
                        y * (b - a) < q * UNIT + UNIT,
                        UNIT * (b - a) <= y * (b - a) <= 0,
                ;
            }
        }
    }
}

/// With a speed that never goes below zero, the height never falls from one
/// breakpoint to the next.
pub proof fn lemma_height_non_decreasing(speed: Anim<i64>, pts: Seq<i64>, k: int)
    requires
        speed.wf(),
        non_negative_ramps(speed),
        breakpoints_ok(pts),
        0 <= k < pts.len() - 1,
    ensures
        height_before(speed, pts, k) <= height_before(speed, pts, k + 1),
{
    lemma_speed_non_negative(speed, pts[k] as int);
    lemma_speed_non_negative(speed, pts[k + 1] - SAMPLE_GAP);
    let s = start_speed(speed, pts, k) + end_speed(speed, pts, k);
    let dt = pts[k + 1] - pts[k];
    assert(pts[k] < pts[k + 1]);
    assert(s * dt >= 0) by (nonlinear_arith)
        requires
            s >= 0,
            dt > 0,
    ;
    vstd::arithmetic::div_mod::lemma_div_pos_is_pos(s * dt, 2 * SECOND as int);
}

/// Quadratic ease-in and ease-out never fall on `[0, UNIT]`, and stay in it.
proof fn lemma_quad_monotone(e: Ease, a: int, b: int)
    requires
        e == Ease::In(Power::Quad) || e == Ease::Out(Power::Quad),
        0 <= a <= b <= UNIT,
    ensures
        0 <= crate::tween::ease_value(e, a) <= crate::tween::ease_value(e, b) <= UNIT,
{
    reveal_with_fuel(crate::tween::ipow, 3);
    let u = UNIT as int;
    assert(crate::tween::ipow(u, 1) == u);
    if e == Ease::In(Power::Quad) {
        assert(crate::tween::ipow(a, 2) == a * a);
        assert(crate::tween::ipow(b, 2) == b * b);
        assert(0 <= a * a <= b * b <= u * u) by (nonlinear_arith)
            requires
                0 <= a <= b <= u,
        ;
        vstd::arithmetic::div_mod::lemma_div_is_ordered(a * a, b * b, u);
        vstd::arithmetic::div_mod::lemma_div_is_ordered(b * b, u * u, u);
        vstd::arithmetic::div_mod::lemma_div_pos_is_pos(a * a, u);
        vstd::arithmetic::div_mod::lemma_div_multiples_vanish(u, u);
    } else {
        assert(crate::tween::ipow(u - a, 2) == (u - a) * (u - a));
        assert(crate::tween::ipow(u - b, 2) == (u - b) * (u - b));
        assert(0 <= (u - b) * (u - b) <= (u - a) * (u - a) <= u * u) by (nonlinear_arith)
            requires
                0 <= a <= b <= u,
        ;
        vstd::arithmetic::div_mod::lemma_div_is_ordered((u - b) * (u - b), (u - a) * (u - a), u);
        vstd::arithmetic::div_mod::lemma_div_is_ordered((u - a) * (u - a), u * u, u);
        vstd::arithmetic::div_mod::lemma_div_pos_is_pos((u - b) * (u - b), u);
        vstd::arithmetic::div_mod::lemma_div_multiples_vanish(u, u);
    }
}

/// A quadratic ease restricted to a sub-range of `[0, UNIT]` never falls and
/// stays in `[0, UNIT]`.
proof fn lemma_clamped_monotone(e: Ease, lo: int, hi: int, x1: int, x2: int)
    requires
        e == Ease::In(Power::Quad) || e == Ease::Out(Power::Quad),
        0 <= lo <= hi <= UNIT,
        0 <= x1 <= x2 <= UNIT,
    ensures
        0 <= crate::tween::clamped_value(e, lo, hi, x1) <= crate::tween::clamped_value(e, lo, hi, x2)
            <= UNIT,
{
    let u = UNIT as int;
    let d = hi - lo;
    assert(0 <= x1 * d <= x2 * d <= u * d) by (nonlinear_arith)
        requires
            0 <= x1 <= x2 <= u,
            d >= 0,
    ;
    vstd::arithmetic::div_mod::lemma_div_is_ordered(x1 * d, x2 * d, u);
    vstd::arithmetic::div_mod::lemma_div_is_ordered(x2 * d, u * d, u);
    vstd::arithmetic::div_mod::lemma_div_pos_is_pos(x1 * d, u);
    assert((u * d) / u == d) by {
        vstd::arithmetic::div_mod::lemma_div_multiples_vanish(d, u);
    }
    let z1 = crate::tween::remap(lo, hi, x1);
    let z2 = crate::tween::remap(lo, hi, x2);
    assert(lo <= z1 <= z2 <= hi);
    lemma_quad_monotone(e, lo, z1);
    lemma_quad_monotone(e, z1, z2);
    lemma_quad_monotone(e, z2, hi);
    let f0 = crate::tween::ease_value(e, lo);
    let f1 = crate::tween::ease_value(e, hi);
    let den = f1 - f0;
    if den > 0 {
        let n1 = (crate::tween::ease_value(e, z1) - f0) * u;
        let n2 = (crate::tween::ease_value(e, z2) - f0) * u;
        assert(0 <= n1 <= n2 <= den * u) by (nonlinear_arith)
            requires
                n1 == (crate::tween::ease_value(e, z1) - f0) * u,
                n2 == (crate::tween::ease_value(e, z2) - f0) * u,
                f0 <= crate::tween::ease_value(e, z1) <= crate::tween::ease_value(e, z2) <= f1,
                den == f1 - f0,
                u > 0,
        ;
        vstd::arithmetic::div_mod::lemma_div_is_ordered(n1, n2, den);
        vstd::arithmetic::div_mod::lemma_div_is_ordered(n2, den * u, den);
        vstd::arithmetic::div_mod::lemma_div_pos_is_pos(n1, den);
        assert((den * u) / den == u) by {
            vstd::arithmetic::div_mod::lemma_div_multiples_vanish(u, den);
        }
    }
}

/// The height tween of two non-negative speeds never falls on `[0, UNIT]`
/// and stays in it.
proof fn lemma_height_tween_monotone(s0: int, s1: int, x1: int, x2: int)
    requires
        0 <= s0,
        0 <= s1,
        0 <= x1 <= x2 <= UNIT,
    ensures
        0 <= height_tween(s0, s1).value(x1) <= height_tween(s0, s1).value(x2) <= UNIT,
{
    let u = UNIT as int;
    if -SPEED_EPS < s0 - s1 < SPEED_EPS {
    } else if s0 > s1 {
        let q = s1 * u / s0;
        assert(0 <= s1 * u < s0 * u) by (nonlinear_arith)
            requires
                0 <= s1 < s0,
                u > 0,
        ;
        crate::fixed::lemma_div_bounds(s1 * u, s0);
        vstd::arithmetic::div_mod::lemma_div_pos_is_pos(s1 * u, s0);
        assert(q < u) by (nonlinear_arith)
            requires
                q * s0 <= s1 * u,
                s1 * u < s0 * u,
                s0 > 0,
        ;
        let hi = clamp_range(u - ratio(s1, s0));
        assert(0 < hi <= u);
        if !crate::tween::is_unit_range(0, hi as int) {
            lemma_clamped_monotone(Ease::Out(Power::Quad), 0, hi as int, x1, x2);
        } else {
            lemma_quad_monotone(Ease::Out(Power::Quad), x1, x2);
            lemma_quad_monotone(Ease::Out(Power::Quad), 0, x1);
            lemma_quad_monotone(Ease::Out(Power::Quad), x2, u);
        }
    } else {
        let q = s0 * u / s1;
        assert(0 <= s0 * u < s1 * u) by (nonlinear_arith)
            requires
                0 <= s0 < s1,
                u > 0,
        ;
        crate::fixed::lemma_div_bounds(s0 * u, s1);
        vstd::arithmetic::div_mod::lemma_div_pos_is_pos(s0 * u, s1);
        assert(q < u) by (nonlinear_arith)
            requires
                q * s1 <= s0 * u,
                s0 * u < s1 * u,
                s1 > 0,
        ;
        let lo = ratio(s0, s1);
        assert(0 <= lo < u);
        if !crate::tween::is_unit_range(lo as int, u) {
            lemma_clamped_monotone(Ease::In(Power::Quad), lo as int, u, x1, x2);
        } else {
            lemma_quad_monotone(Ease::In(Power::Quad), x1, x2);
            lemma_quad_monotone(Ease::In(Power::Quad), 0, x1);
            lemma_quad_monotone(Ease::In(Power::Quad), x2, u);
        }
    }
}

/// With a speed that never goes below zero, heights at breakpoints never fall
/// from any breakpoint to any later one.
proof fn lemma_heights_ordered(speed: Anim<i64>, pts: Seq<i64>, i: int, j: int)
    requires
        speed.wf(),
        non_negative_ramps(speed),
        breakpoints_ok(pts),
        0 <= i <= j < pts.len(),
    ensures
        height_before(speed, pts, i) <= height_before(speed, pts, j),
    decreases j - i,
{
    if i < j {
        lemma_height_non_decreasing(speed, pts, i);
        lemma_heights_ordered(speed, pts, i + 1, j);
    }
}

/// The bracketing index never moves back as the query moves forward.
proof fn lemma_bracket_monotone(keys: Seq<int>, t1: int, t2: int)
    requires
        keys.len() >= 1,
        crate::tempo::sorted_keys(keys),
        t1 <= t2,
    ensures
        crate::tempo::last_at_or_before(keys, t1) <= crate::tempo::last_at_or_before(keys, t2),
{
    crate::tempo::lemma_bracket_exists(keys, t1);
    crate::tempo::lemma_bracket_exists(keys, t2);
    let i1 = crate::tempo::last_at_or_before(keys, t1);
    let i2 = crate::tempo::last_at_or_before(keys, t2);
    if i1 > i2 {
        assert(keys[i2 + 1] <= keys[i1]);
    }
}

/// Where the height timeline stands at `t`: between the heights of the
/// keyframes around `t`, and at the first height before the first keyframe.
proof fn lemma_height_sample_between(speed: Anim<i64>, pts: Seq<i64>, h: Anim<i64>, t: int)
    requires
        speed.wf(),
        non_negative_ramps(speed),
        breakpoints_ok(pts),
        heights_over(h, speed, pts),
    ensures
        ({
            let k = h.keyframes@;
            let i = crate::tempo::last_at_or_before(time_keys(k), t);
            &&& k[i].value <= h.value_at(t)
            &&& (i + 1 < k.len() ==> h.value_at(t) <= k[i + 1].value)
            &&& (t < k[0].time ==> h.value_at(t) == k[0].value)
        }),
{
    let k = h.keyframes@;
    let keys = time_keys(k);
    crate::tempo::lemma_bracket_exists(keys, t);
    let i = crate::tempo::last_at_or_before(keys, t);
    if i + 1 < k.len() {
        lemma_height_non_decreasing(speed, pts, i);
    }
    if !(t < k[0].time || i == k.len() - 1) {
        let t0 = k[i].time as int;
        let t1 = k[i + 1].time as int;
        let x = crate::anim::progress(t0, t1, t);
        let num = (t - t0) * UNIT;
        let span = t1 - t0;
        assert(keys[i] <= t < keys[i + 1]);
        assert(0 <= num < span * UNIT) by (nonlinear_arith)
            requires
                0 <= t - t0 < span,
                num == (t - t0) * UNIT,
        ;
        crate::fixed::lemma_div_bounds(num, span);
        assert(0 <= x < UNIT) by (nonlinear_arith)
            requires
                x == num / span,
                (num / span) * span <= num,
                num < (num / span) * span + span,
                0 <= num < span * UNIT,
                span > 0,
        ;
        lemma_speed_non_negative(speed, pts[i] as int);
        lemma_speed_non_negative(speed, pts[i + 1] - SAMPLE_GAP);
        lemma_height_tween_monotone(start_speed(speed, pts, i), end_speed(speed, pts, i), x, x);
        let y = k[i].tween.value(x);
        let a = k[i].value as int;
        let b = k[i + 1].value as int;
        crate::fixed::lemma_div_bounds(y * (b - a), UNIT as int);
        assert(0 <= y * (b - a) <= UNIT * (b - a)) by (nonlinear_arith)
            requires
                0 <= y <= UNIT,
                b >= a,
        ;
        let q = y * (b - a) / UNIT as int;
        assert(0 <= q <= b - a) by (nonlinear_arith)
            requires
                q * UNIT <= y * (b - a),
                y * (b - a) < q * UNIT + UNIT,
                0 <= y * (b - a) <= UNIT * (b - a),
        ;
    }
}

/// With a speed that never goes below zero, the height timeline built from it
/// never falls: sampled at a later time it gives at least as much.
pub proof fn lemma_height_sampling_non_decreasing(
    speed: Anim<i64>,
    pts: Seq<i64>,
    h: Anim<i64>,
    t1: int,
    t2: int,
)
    requires
        speed.wf(),
        non_negative_ramps(speed),
        breakpoints_ok(pts),
        heights_over(h, speed, pts),
        t1 <= t2,
    ensures
        h.value_at(t1) <= h.value_at(t2),
{
    let k = h.keyframes@;
    let keys = time_keys(k);
    lemma_bracket_monotone(keys, t1, t2);
    crate::tempo::lemma_bracket_exists(keys, t1);
    crate::tempo::lemma_bracket_exists(keys, t2);
    let i1 = crate::tempo::last_at_or_before(keys, t1);
    let i2 = crate::tempo::last_at_or_before(keys, t2);
    lemma_height_sample_between(speed, pts, h, t1);
    lemma_height_sample_between(speed, pts, h, t2);
    if i1 < i2 {
        lemma_heights_ordered(speed, pts, i1 + 1, i2);
        assert(k[i1 + 1].value == height_before(speed, pts, i1 + 1));
        assert(k[i2].value == height_before(speed, pts, i2));
    } else if !(t1 < k[0].time || i1 == k.len() - 1) {
        let i = i1;
        let ta = k[i].time as int;
        let tb = k[i + 1].time as int;
        assert(keys[i] <= t1 <= t2 < keys[i + 1]);
        let span = tb - ta;
        let n1 = (t1 - ta) * UNIT;
        let n2 = (t2 - ta) * UNIT;
        assert(0 <= n1 <= n2 < span * UNIT) by (nonlinear_arith)
            requires
                0 <= t1 - ta <= t2 - ta < span,
                n1 == (t1 - ta) * UNIT,
                n2 == (t2 - ta) * UNIT,
        ;
        vstd::arithmetic::div_mod::lemma_div_is_ordered(n1, n2, span);
        crate::fixed::lemma_div_bounds(n1, span);
        crate::fixed::lemma_div_bounds(n2, span);
        let x1 = crate::anim::progress(ta, tb, t1);
        let x2 = crate::anim::progress(ta, tb, t2);
        assert(0 <= x1 && x2 < UNIT) by (nonlinear_arith)
            requires
                x1 == n1 / span,
                x2 == n2 / span,
                (n1 / span) * span <= n1,
                n1 < (n1 / span) * span + span,
                (n2 / span) * span <= n2,
                n2 < (n2 / span) * span + span,
                0 <= n1 <= n2 < span * UNIT,
                span > 0,
        ;
        lemma_speed_non_negative(speed, pts[i] as int);
        lemma_speed_non_negative(speed, pts[i + 1] - SAMPLE_GAP);
        lemma_height_tween_monotone(start_speed(speed, pts, i), end_speed(speed, pts, i), x1, x2);
        lemma_height_non_decreasing(speed, pts, i);
        let y1 = k[i].tween.value(x1);
        let y2 = k[i].tween.value(x2);
        let a = k[i].value as int;
        let b = k[i + 1].value as int;
        assert(y1 * (b - a) <= y2 * (b - a)) by (nonlinear_arith)
            requires
                y1 <= y2,
                b >= a,
        ;
        vstd::arithmetic::div_mod::lemma_div_is_ordered(y1 * (b - a), y2 * (b - a), UNIT as int);
        crate::fixed::lemma_div_bounds(y1 * (b - a), UNIT as int);
        crate::fixed::lemma_div_bounds(y2 * (b - a), UNIT as int);
        let q1 = y1 * (b - a) / UNIT as int;
        let q2 = y2 * (b - a) / UNIT as int;
        assert(0 <= y1 * (b - a) && y2 * (b - a) <= UNIT * (b - a)) by (nonlinear_arith)
            requires
                0 <= y1 <= y2 <= UNIT,
                b >= a,
        ;
        assert(0 <= q1 && q2 <= b - a) by (nonlinear_arith)
            requires
                q1 * UNIT <= y1 * (b - a),
                y1 * (b - a) < q1 * UNIT + UNIT,
                q2 * UNIT <= y2 * (b - a),
                y2 * (b - a) < q2 * UNIT + UNIT,
                0 <= y1 * (b - a),
                y2 * (b - a) <= UNIT * (b - a),
        ;
        assert(h.value_at(t1) == a + q1);
        assert(h.value_at(t2) == a + q2);
    }
}

} // verus!
