//! Fixed-point helpers shared by the chart model.
use vstd::prelude::*;
use vstd::arithmetic::div_mod::*;

verus! {

/// `a / b` rounded toward minus infinity, for a positive divisor.
pub fn floor_div(a: i128, b: i128) -> (r: i128)
    requires
        b > 0,
        a > i128::MIN,
    ensures
        r == a / b,
{
    if a >= 0 {
        a / b
    } else {
        let n: i128 = -a;
        let q: i128 = (n - 1) / b;
        proof {
            lemma_neg_floor(a as int, b as int);
        }
        -q - 1
    }
}

/// For `a < 0`: `a / b == -((-a - 1) / b) - 1`.
proof fn lemma_neg_floor(a: int, b: int)
    requires
        a < 0,
        b > 0,
    ensures
        a / b == -((-a - 1) / b) - 1,
{
    let q = (-a - 1) / b;
    let m = (-a - 1) % b;
    lemma_fundamental_div_mod(-a - 1, b);
    lemma_mod_pos_bound(-a - 1, b);
    assert(a == (-q - 1) * b + (b - 1 - m)) by (nonlinear_arith)
        requires
            -a - 1 == b * q + m,
    ;
    lemma_fundamental_div_mod_converse(a, b, -q - 1, b - 1 - m);
}

/// Bounds of a quotient with a positive divisor.
pub proof fn lemma_div_bounds(x: int, d: int)
    requires
        d > 0,
    ensures
        (x / d) * d <= x,
        x < (x / d) * d + d,
{
    lemma_fundamental_div_mod(x, d);
    lemma_mod_bound(x, d);
    assert((x / d) * d == d * (x / d)) by (nonlinear_arith);
}


/// A quotient by a divisor of at least `lo` is bounded by `m` when the
/// dividend lies within `m * lo` of zero.
pub proof fn lemma_div_abs_bound(x: int, d: int, lo: int, m: int)
    requires
        0 < lo <= d,
        0 <= m,
        -(m * lo) <= x <= m * lo,
    ensures
        -m <= x / d <= m,
{
    let q = x / d;
    lemma_div_bounds(x, d);
    if q > m {
        assert(q * d >= (m + 1) * lo) by (nonlinear_arith)
            requires q >= m + 1, d >= lo, lo > 0, m >= 0;
        assert((m + 1) * lo == m * lo + lo) by (nonlinear_arith);
    }
    if q < -m {
        assert(q * d + d <= -(m * lo)) by (nonlinear_arith)
            requires q + 1 <= -m, d >= lo, lo > 0, m >= 0;
    }
}

} // verus!
