//! Division and remainder as the machine computes them on signed integers:
//! the quotient is rounded towards zero and the remainder takes the sign of
//! the dividend.

use vstd::prelude::*;
use vstd::math::abs;
use vstd::arithmetic::div_mod::{
    lemma_fundamental_div_mod,
    lemma_fundamental_div_mod_converse,
    lemma_mod_bound,
};

verus! {

/// The quotient of `x` by `y`, rounded towards zero.
pub open spec fn truncated_div(x: int, y: int) -> int {
    if x >= 0 {
        x / y
    } else {
        -((-x) / y)
    }
}

/// The remainder that goes with [`truncated_div`]: it has the sign of `x`.
pub open spec fn truncated_rem(x: int, y: int) -> int {
    if x >= 0 {
        x % y
    } else {
        -((-x) % y)
    }
}

/// Division of a non-negative number by a divisor of either sign: the
/// remainder is smaller than the divisor's magnitude, and the quotient has
/// the magnitude that division by that magnitude gives.
proof fn lemma_divide_nonnegative(x: int, y: int)
    requires
        x >= 0,
        y != 0,
    ensures
        x == (x / y) * y + x % y,
        0 <= x % y < abs(y),
        x % y == x % (abs(y) as int),
        y > 0 ==> x / y == x / (abs(y) as int),
        y < 0 ==> x / y == -(x / (abs(y) as int)),
{
    lemma_fundamental_div_mod(x, y);
    assert(x == (x / y) * y + x % y) by (nonlinear_arith)
        requires
            x == y * (x / y) + (x % y),
    ;
    if y > 0 {
        lemma_mod_bound(x, y);
    } else {
        let m = -y;
        lemma_fundamental_div_mod(x, m);
        lemma_mod_bound(x, m);
        let q = x / m;
        let r = x % m;
        assert(0 <= x % y < m && x / y == -q && x % y == r) by (nonlinear_arith)
            requires
                x == m * q + r,
                0 <= r < m,
                y == -m,
                m > 0,
                x == y * (x / y) + (x % y),
        ;
    }
}

/// The quotient and remainder of machine division, by magnitudes: the
/// magnitude of the quotient is the quotient of the magnitudes, likewise for
/// the remainder, and the remainder's sign is that of the dividend.
pub proof fn lemma_truncated_division(x: int, y: int)
    requires
        y != 0,
    ensures
        x == truncated_div(x, y) * y + truncated_rem(x, y),
        abs(truncated_div(x, y)) == abs(x) / abs(y),
        abs(truncated_rem(x, y)) == abs(x) % abs(y),
        abs(truncated_rem(x, y)) < abs(y),
        x >= 0 ==> truncated_rem(x, y) >= 0,
        x <= 0 ==> truncated_rem(x, y) <= 0,
        x >= 0 && y > 0 ==> truncated_div(x, y) >= 0,
{
    let m = abs(y) as int;
    if x >= 0 {
        lemma_divide_nonnegative(x, y);
        lemma_fundamental_div_mod(x, m);
        lemma_mod_bound(x, m);
        assert(x / m >= 0) by (nonlinear_arith)
            requires
                x == m * (x / m) + x % m,
                0 <= x % m < m,
                x >= 0,
        ;
    } else {
        let z = -x;
        lemma_divide_nonnegative(z, y);
        lemma_fundamental_div_mod(z, m);
        lemma_mod_bound(z, m);
        assert(z / m >= 0) by (nonlinear_arith)
            requires
                z == m * (z / m) + z % m,
                0 <= z % m < m,
                z >= 0,
        ;
        assert(x == (-(z / y)) * y + (-(z % y))) by (nonlinear_arith)
            requires
                z == (z / y) * y + z % y,
                x == -z,
        ;
    }
}

/// For a positive modulus the machine remainder differs from the
/// mathematical one by exactly `m` when it is negative, and not at all
/// otherwise.
pub proof fn lemma_truncated_remainder(x: int, m: int)
    requires
        m > 0,
    ensures
        -m < truncated_rem(x, m) < m,
        truncated_rem(x, m) >= 0 ==> x % m == truncated_rem(x, m),
        truncated_rem(x, m) < 0 ==> x % m == truncated_rem(x, m) + m,
{
    if x < 0 {
        let y = -x;
        lemma_fundamental_div_mod(y, m);
        lemma_mod_bound(y, m);
        let q = y / m;
        let t = y % m;
        if t == 0 {
            assert(x == (-q) * m + 0) by (nonlinear_arith)
                requires
                    y == m * q + t,
                    t == 0,
                    x == -y,
            ;
            lemma_fundamental_div_mod_converse(x, m, -q, 0);
        } else {
            assert(x == (-q - 1) * m + (m - t)) by (nonlinear_arith)
                requires
                    y == m * q + t,
                    x == -y,
            ;
            lemma_fundamental_div_mod_converse(x, m, -q - 1, m - t);
        }
    } else {
        lemma_mod_bound(x, m);
    }
}

} // verus!
