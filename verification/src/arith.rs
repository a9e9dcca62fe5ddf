//! Exact rounded division, the one place the engine rounds: mapping a
//! rational coordinate back onto the integer grid.

use vstd::prelude::*;
use vstd::arithmetic::div_mod::{
    lemma_div_is_ordered, lemma_fundamental_div_mod, lemma_fundamental_div_mod_converse_div,
    lemma_mod_division_less_than_divisor,
};

verus! {

/// Magnitude bound under which [`div_round`] accepts its arguments; large
/// enough for every quotient the engine forms.
pub const DIV_ARG_BOUND: i128 = 0x1fff_ffff_ffff_ffff_ffff_ffff_ffff_ffff;

/// The quotient `n / d` (`d >= 1`) rounded to the nearest integer, halves
/// rounded away from zero.
pub open spec fn round_div(n: int, d: int) -> int {
    if n >= 0 {
        (2 * n + d) / (2 * d)
    } else {
        -((2 * (-n) + d) / (2 * d))
    }
}

/// Rounding a quotient that is exact recovers the integer: the grid is a
/// fixed point of the rounding.
pub proof fn lemma_round_div_exact(q: int, d: int)
    requires
        d >= 1,
    ensures
        round_div(q * d, d) == q,
{
    if q >= 0 {
        assert(q * d >= 0) by (nonlinear_arith)
            requires q >= 0 && d >= 1;
        assert(2 * (q * d) + d == q * (2 * d) + d) by (nonlinear_arith);
        lemma_fundamental_div_mod_converse_div(2 * (q * d) + d, 2 * d, q, d);
    } else {
        assert(q * d < 0) by (nonlinear_arith)
            requires q < 0 && d >= 1;
        assert(2 * (-(q * d)) + d == (-q) * (2 * d) + d) by (nonlinear_arith);
        lemma_fundamental_div_mod_converse_div(2 * (-(q * d)) + d, 2 * d, -q, d);
    }
}

/// A quotient whose numerator lies between `lo*d` and `hi*d` rounds to a
/// value between `lo` and `hi`: rounding cannot escape integer bounds.
pub proof fn lemma_round_div_range(n: int, d: int, lo: int, hi: int)
    requires
        d >= 1,
        lo * d <= n <= hi * d,
    ensures
        lo <= round_div(n, d) <= hi,
{
    if n >= 0 {
        lemma_div_is_ordered(2 * (lo * d) + d, 2 * n + d, 2 * d);
        lemma_div_is_ordered(2 * n + d, 2 * (hi * d) + d, 2 * d);
        assert(2 * (lo * d) + d == lo * (2 * d) + d) by (nonlinear_arith);
        assert(2 * (hi * d) + d == hi * (2 * d) + d) by (nonlinear_arith);
        lemma_fundamental_div_mod_converse_div(2 * (lo * d) + d, 2 * d, lo, d);
        lemma_fundamental_div_mod_converse_div(2 * (hi * d) + d, 2 * d, hi, d);
    } else {
        let m = -n;
        assert(-(hi * d) <= m <= -(lo * d));
        lemma_div_is_ordered(2 * (-(hi * d)) + d, 2 * m + d, 2 * d);
        lemma_div_is_ordered(2 * m + d, 2 * (-(lo * d)) + d, 2 * d);
        assert(2 * (-(hi * d)) + d == (-hi) * (2 * d) + d) by (nonlinear_arith);
        assert(2 * (-(lo * d)) + d == (-lo) * (2 * d) + d) by (nonlinear_arith);
        lemma_fundamental_div_mod_converse_div(2 * (-(hi * d)) + d, 2 * d, -hi, d);
        lemma_fundamental_div_mod_converse_div(2 * (-(lo * d)) + d, 2 * d, -lo, d);
    }
}

/// Linear interpolation with a parameter fraction `tn/den` in `[0, 1]`
/// stays between bounds that hold at both endpoints.
pub proof fn lemma_interp_bound(
    base: int,
    delta: int,
    tn: int,
    den: int,
    lo: int,
    hi: int,
) by (nonlinear_arith)
    requires
        den >= 1,
        0 <= tn <= den,
        lo <= base <= hi,
        lo <= base + delta <= hi,
    ensures
        lo * den <= base * den + tn * delta <= hi * den,
{
}

/// A product of two magnitude-bounded integers is bounded by the product
/// of the bounds.
pub proof fn lemma_mul_bound(x: int, y: int, bx: int, by: int) by (nonlinear_arith)
    requires
        -bx <= x <= bx,
        -by <= y <= by,
    ensures
        -(bx * by) <= x * y <= bx * by,
{
}

/// Products of pairwise equal factors are equal; bridges a computed
/// product to its specification-level form.
pub proof fn lemma_mul_congr(a: int, b: int, x: int, y: int) by (nonlinear_arith)
    requires
        a == x,
        b == y,
    ensures
        a * b == x * y,
{
}

/// Rounded integer division, the executable form of [`round_div`].
pub fn div_round(n: i128, d: i128) -> (r: i128)
    requires
        1 <= d <= DIV_ARG_BOUND,
        -DIV_ARG_BOUND <= n <= DIV_ARG_BOUND,
    ensures
        r == round_div(n as int, d as int),
{
    let dd: u128 = (2 * d) as u128;
    if n >= 0 {
        let num: u128 = (2 * n) as u128 + d as u128;
        let q: u128 = num / dd;
        proof {
            assert(q <= num) by (nonlinear_arith)
                requires q == num as int / dd as int && dd >= 2 && num >= 0;
        }
        q as i128
    } else {
        let num: u128 = (2 * (-n)) as u128 + d as u128;
        let q: u128 = num / dd;
        proof {
            assert(q <= num) by (nonlinear_arith)
                requires q == num as int / dd as int && dd >= 2 && num >= 0;
        }
        -(q as i128)
    }
}

} // verus!
