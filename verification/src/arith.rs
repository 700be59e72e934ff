//! Fixed-point numbers and rounding division.
//!
//! Every quantity of the combat model (health, attack, defence) is held as a
//! whole number of hundredths of a point, so that the damage formula can be
//! evaluated exactly: the only rounding is the one the formula itself asks for.

use vstd::prelude::*;

verus! {

/// Raw units per point: a raw value `v` stands for `v / SCALE` points.
pub const SCALE: i128 = 100;

/// The absolute value of an integer.
pub open spec fn abs(x: int) -> int {
    if x < 0 {
        -x
    } else {
        x
    }
}

/// The quotient `num / den` rounded to the nearest integer, a half going away
/// from zero. The value is of no interest where `den` is zero.
#[verifier::opaque]
pub open spec fn round_half_away(num: int, den: int) -> int
    recommends
        den != 0,
{
    let q = (2 * abs(num) + abs(den)) / (2 * abs(den));
    if (num < 0) != (den < 0) {
        -q
    } else {
        q
    }
}

/// For non-negative `n` and positive `d`, `(2n + d) / 2d` is the whole part of
/// `n / d`, plus one where the remainder is at least half of `d`.
proof fn lemma_rounded_magnitude(n: int, d: int)
    requires
        0 <= n,
        0 < d,
    ensures
        (2 * n + d) / (2 * d) == n / d + (if 2 * (n % d) >= d { 1int } else { 0int }),
{
    let w = n / d;
    let r = n % d;
    let up = if 2 * r >= d { 1int } else { 0int };
    assert(n == d * w + r && 0 <= r < d) by (nonlinear_arith)
        requires
            0 <= n,
            0 < d,
            w == n / d,
            r == n % d,
    ;
    let rest = 2 * r + d - 2 * d * up;
    assert(0 <= rest < 2 * d);
    assert(2 * n + d == (w + up) * (2 * d) + rest) by (nonlinear_arith)
        requires
            n == d * w + r,
            rest == 2 * r + d - 2 * d * up,
    ;
    vstd::arithmetic::div_mod::lemma_fundamental_div_mod_converse(2 * n + d, 2 * d, w + up, rest);
}

/// Rounding picks the nearest integer: the rounded quotient lies within a half
/// of `num / den`, and where `num / den` is exactly halfway between two
/// integers it is the one of greater magnitude. Its sign is that of the
/// quotient.
pub proof fn lemma_round_half_away_nearest(num: int, den: int)
    requires
        den != 0,
    ensures
        ({
            let q = round_half_away(num, den);
            &&& (2 * abs(q) - 1) * abs(den) <= 2 * abs(num) < (2 * abs(q) + 1) * abs(den)
            &&& ((num < 0) != (den < 0)) ==> q <= 0
            &&& ((num < 0) == (den < 0)) ==> q >= 0
        }),
{
    reveal(round_half_away);
    let n = abs(num);
    let d = abs(den);
    let m = (2 * n + d) / (2 * d);
    let r = (2 * n + d) % (2 * d);
    assert(2 * n + d == (2 * d) * m + r && 0 <= r < 2 * d && 0 <= m) by (nonlinear_arith)
        requires
            0 <= n,
            0 < d,
            m == (2 * n + d) / (2 * d),
            r == (2 * n + d) % (2 * d),
    ;
    assert((2 * m - 1) * d <= 2 * n < (2 * m + 1) * d) by (nonlinear_arith)
        requires
            2 * n + d == (2 * d) * m + r,
            0 <= r < 2 * d,
    ;
    assert(abs(round_half_away(num, den)) == m);
}

/// Of a quotient that is not negative the rounded value is not negative
/// either, and lies within a half of it.
pub proof fn lemma_round_half_away_positive(num: int, den: int)
    requires
        0 <= num,
        0 < den,
    ensures
        0 <= round_half_away(num, den),
        (2 * round_half_away(num, den) - 1) * den <= 2 * num,
        2 * num < (2 * round_half_away(num, den) + 1) * den,
{
    lemma_round_half_away_nearest(num, den);
}

/// The rounded quotient is no further from zero than the exact one by more
/// than a half: `2 |q| |den| <= 2 |num| + |den|`.
pub proof fn lemma_round_half_away_bound(num: int, den: int)
    requires
        den != 0,
    ensures
        2 * (abs(round_half_away(num, den)) * abs(den)) <= 2 * abs(num) + abs(den),
{
    lemma_round_half_away_nearest(num, den);
    let m = abs(round_half_away(num, den));
    let d = abs(den);
    assert((2 * m - 1) * d == 2 * (m * d) - d) by (nonlinear_arith);
}

/// Against a divisor of magnitude at least `2 * scale`, the rounded quotient
/// times `scale` is at most half of `|num| + scale`.
pub proof fn lemma_round_half_away_scaled(num: int, den: int, scale: int)
    requires
        0 < scale,
        abs(den) >= 2 * scale,
    ensures
        2 * scale * abs(round_half_away(num, den)) <= abs(num) + scale,
{
    lemma_round_half_away_nearest(num, den);
    let m = abs(round_half_away(num, den));
    let d = abs(den);
    let n = abs(num);
    assert(2 * scale * m <= n + scale) by (nonlinear_arith)
        requires
            0 <= m,
            0 <= n,
            0 < scale,
            d >= 2 * scale,
            (2 * m - 1) * d <= 2 * n,
    ;
}

/// The product of two bounded integers is bounded by the product of the
/// bounds.
pub proof fn lemma_product_bound(x: int, y: int, bound_x: int, bound_y: int)
    by (nonlinear_arith)
    requires
        -bound_x <= x <= bound_x,
        -bound_y <= y <= bound_y,
    ensures
        -(bound_x * bound_y) <= x * y <= bound_x * bound_y,
{
}

/// Divides `num` by `den` and rounds to the nearest integer, a half going away
/// from zero.
pub fn round_div(num: i128, den: i128) -> (q: i128)
    requires
        den != 0,
        num > i128::MIN,
        den > i128::MIN,
    ensures
        q == round_half_away(num as int, den as int),
{
    let n: i128 = if num < 0 { -num } else { num };
    let d: i128 = if den < 0 { -den } else { den };
    let whole: i128 = n / d;
    let rest: i128 = n % d;
    proof {
        reveal(round_half_away);
        lemma_rounded_magnitude(n as int, d as int);
        assert(n == d * whole + rest && 0 <= rest < d && 0 <= whole <= n) by (nonlinear_arith)
            requires
                0 <= n,
                0 < d,
                whole == n as int / d as int,
                rest == n as int % d as int,
        ;
        if rest >= d - rest {
            assert(whole < n) by (nonlinear_arith)
                requires
                    n == d * whole + rest,
                    0 <= whole,
                    1 <= rest,
                    2 <= d,
            ;
        }
    }
    let magnitude: i128 = if rest >= d - rest { whole + 1 } else { whole };
    if (num < 0) != (den < 0) {
        -magnitude
    } else {
        magnitude
    }
}

} // verus!
