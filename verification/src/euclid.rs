//! The extended Euclidean algorithm: a greatest common divisor together with
//! coefficients that combine the two inputs into it.

use vstd::prelude::*;
use vstd::math::abs;
use crate::divisibility::{divides, is_gcd, lemma_divides_combination, lemma_divides_multiple};
use crate::truncation::{lemma_truncated_division, truncated_div};

verus! {

/// Where the Euclidean recurrence ends when started from two successive
/// remainders `prev_r`, `r` and the coefficient pairs that go with them. Each
/// step divides the older remainder by the newer, rounding towards zero, and
/// replaces the older triple by itself minus the quotient times the newer.
/// When the newer remainder is zero the older triple is the result, in the
/// order (`s`, `t`, remainder).
pub open spec fn euclid_run(prev_r: int, r: int, prev_s: int, s: int, prev_t: int, t: int) -> (
    int,
    int,
    int,
)
    decreases abs(r),
    via euclid_run_terminates
{
    if r == 0 {
        (prev_s, prev_t, prev_r)
    } else {
        let q = truncated_div(prev_r, r);
        euclid_run(r, prev_r - q * r, s, prev_s - q * s, t, prev_t - q * t)
    }
}

#[via_fn]
proof fn euclid_run_terminates(prev_r: int, r: int, prev_s: int, s: int, prev_t: int, t: int) {
    if r != 0 {
        lemma_truncated_division(prev_r, r);
    }
}

/// The triple (`s`, `t`, `g`) that the extended Euclidean algorithm gives for
/// `a` and `b`.
pub open spec fn bezout(a: int, b: int) -> (int, int, int) {
    euclid_run(a, b, 1, 0, 0, 1)
}

/// The recurrence keeps every remainder equal to its coefficients applied to
/// `a` and `b`, so the same holds of its result.
pub proof fn lemma_euclid_run_identity(
    a: int,
    b: int,
    prev_r: int,
    r: int,
    prev_s: int,
    s: int,
    prev_t: int,
    t: int,
)
    requires
        a * prev_s + b * prev_t == prev_r,
        a * s + b * t == r,
    ensures
        ({
            let (x, y, g) = euclid_run(prev_r, r, prev_s, s, prev_t, t);
            a * x + b * y == g
        }),
    decreases abs(r),
{
    if r != 0 {
        let q = truncated_div(prev_r, r);
        lemma_truncated_division(prev_r, r);
        assert(a * (prev_s - q * s) + b * (prev_t - q * t) == prev_r - q * r) by (nonlinear_arith)
            requires
                a * prev_s + b * prev_t == prev_r,
                a * s + b * t == r,
        ;
        lemma_euclid_run_identity(a, b, r, prev_r - q * r, s, prev_s - q * s, t, prev_t - q * t);
    }
}

/// The remainder on which the recurrence ends is, up to sign, the greatest
/// common divisor of the two remainders it started from.
pub proof fn lemma_euclid_run_gcd(prev_r: int, r: int, prev_s: int, s: int, prev_t: int, t: int)
    ensures
        is_gcd(abs(euclid_run(prev_r, r, prev_s, s, prev_t, t).2) as int, prev_r, r),
    decreases abs(r),
{
    let g = abs(euclid_run(prev_r, r, prev_s, s, prev_t, t).2) as int;
    if r == 0 {
        assert(g == abs(prev_r));
        if g > 0 {
            lemma_divides_multiple(g, 1);
            lemma_divides_multiple(g, -1);
            assert(g * 1 == g && g * (-1) == -g);
        }
        assert forall|d: int| d > 0 && #[trigger] divides(d, prev_r) && divides(d, r) implies divides(
            d,
            g,
        ) by {
            lemma_divides_combination(d, prev_r, -1, prev_r, 0);
            assert(prev_r * (-1) + prev_r * 0 == -prev_r);
        }
    } else {
        let q = truncated_div(prev_r, r);
        let next = prev_r - q * r;
        lemma_truncated_division(prev_r, r);
        lemma_euclid_run_gcd(r, next, s, prev_s - q * s, t, prev_t - q * t);
        assert(g > 0);
        lemma_divides_combination(g, next, 1, r, q);
        assert(next * 1 + r * q == prev_r) by (nonlinear_arith)
            requires
                next == prev_r - q * r,
        ;
        assert forall|d: int| d > 0 && #[trigger] divides(d, prev_r) && divides(d, r) implies divides(
            d,
            g,
        ) by {
            lemma_divides_combination(d, prev_r, 1, r, -q);
            assert(prev_r * 1 + r * (-q) == next) by (nonlinear_arith)
                requires
                    next == prev_r - q * r,
            ;
            assert(divides(d, next));
        }
    }
}

/// Started from non-negative remainders the recurrence ends on a
/// non-negative one.
pub proof fn lemma_euclid_run_nonnegative(
    prev_r: int,
    r: int,
    prev_s: int,
    s: int,
    prev_t: int,
    t: int,
)
    requires
        prev_r >= 0,
        r >= 0,
    ensures
        euclid_run(prev_r, r, prev_s, s, prev_t, t).2 >= 0,
    decreases abs(r),
{
    if r != 0 {
        let q = truncated_div(prev_r, r);
        lemma_truncated_division(prev_r, r);
        lemma_euclid_run_nonnegative(r, prev_r - q * r, s, prev_s - q * s, t, prev_t - q * t);
    }
}

/// The result of the extended Euclidean algorithm combines `a` and `b` into
/// their greatest common divisor, up to sign; the sign is positive when
/// neither `a` nor `b` is negative.
pub proof fn lemma_bezout(a: int, b: int)
    ensures
        a * bezout(a, b).0 + b * bezout(a, b).1 == bezout(a, b).2,
        is_gcd(abs(bezout(a, b).2) as int, a, b),
        a >= 0 && b >= 0 ==> bezout(a, b).2 >= 0,
{
    lemma_euclid_run_identity(a, b, a, b, 1, 0, 0, 1);
    lemma_euclid_run_gcd(a, b, 1, 0, 0, 1);
    if a >= 0 && b >= 0 {
        lemma_euclid_run_nonnegative(a, b, 1, 0, 0, 1);
    }
}

/// Bounds on a state of the recurrence for `a` and `b`. The coefficients are
/// held below `u`, `up`, `v` and `vp`, which the remainders tie to the
/// magnitudes of `b` and `a`; the older coefficients come to at most half of
/// those magnitudes once they exceed one.
spec fn bounded_state(
    a: int,
    b: int,
    prev_r: int,
    r: int,
    prev_s: int,
    s: int,
    prev_t: int,
    t: int,
    u: int,
    up: int,
    v: int,
    vp: int,
) -> bool {
    &&& abs(s) <= u
    &&& abs(prev_s) <= up
    &&& abs(t) <= v
    &&& abs(prev_t) <= vp
    &&& u * abs(prev_r) + up * abs(r) == abs(b)
    &&& v * abs(prev_r) + vp * abs(r) == abs(a)
    &&& (u == 0 && up == 1 && v == 1 && vp == 0) || abs(r) < abs(prev_r)
    &&& up <= 1 || 2 * up <= abs(b)
    &&& vp <= 1 || 2 * vp <= abs(a)
    &&& u <= abs(b) + 1
    &&& v <= abs(a) + 1
}

/// The magnitude of a product is the product of the magnitudes.
proof fn lemma_abs_product(x: int, y: int)
    ensures
        abs(x * y) == abs(x) * abs(y),
{
    assert(abs(x * y) == abs(x) * abs(y)) by (nonlinear_arith);
}

/// One bound carried through one step: what `u * x + up * y` came to before
/// the step, `(up + q * u) * y + u * (x - q * y)` comes to after it.
proof fn lemma_step_bound(u: int, up: int, x: int, y: int, q: int, total: int)
    requires
        u >= 0,
        up >= 0,
        q >= 0,
        y >= 1,
        0 <= x - q * y < y,
        u * x + up * y == total,
        u <= 1 || y < x,
    ensures
        (up + q * u) * y + u * (x - q * y) == total,
        up + q * u <= total,
        u <= 1 || 2 * u <= total,
        up + q * u >= 0,
{
    let grown = up + q * u;
    assert(grown * y + u * (x - q * y) == total && grown >= 0) by (nonlinear_arith)
        requires
            grown == up + q * u,
            u * x + up * y == total,
            u >= 0,
            up >= 0,
            q >= 0,
    ;
    assert(grown <= total) by (nonlinear_arith)
        requires
            grown * y + u * (x - q * y) == total,
            y >= 1,
            grown >= 0,
            u >= 0,
            0 <= x - q * y,
    ;
    if u > 1 {
        assert(2 * u <= total) by (nonlinear_arith)
            requires
                u * x + up * y == total,
                x >= 2,
                up >= 0,
                y >= 1,
                u >= 0,
        ;
    }
}

/// A step of the recurrence keeps the state within its bounds.
proof fn lemma_step_bounded(
    a: int,
    b: int,
    prev_r: int,
    r: int,
    prev_s: int,
    s: int,
    prev_t: int,
    t: int,
    u: int,
    up: int,
    v: int,
    vp: int,
)
    requires
        r != 0,
        bounded_state(a, b, prev_r, r, prev_s, s, prev_t, t, u, up, v, vp),
    ensures
        ({
            let q = truncated_div(prev_r, r);
            let m = abs(q) as int;
            &&& bounded_state(
                a,
                b,
                r,
                prev_r - q * r,
                s,
                prev_s - q * s,
                t,
                prev_t - q * t,
                up + m * u,
                u,
                vp + m * v,
                v,
            )
            &&& abs(q) <= abs(prev_r)
            &&& abs(q * r) <= abs(prev_r)
            &&& abs(q * s) <= abs(b)
            &&& abs(q * t) <= abs(a)
        }),
{
    let q = truncated_div(prev_r, r);
    let m = abs(q) as int;
    let x = abs(prev_r) as int;
    let y = abs(r) as int;
    lemma_truncated_division(prev_r, r);
    vstd::arithmetic::div_mod::lemma_fundamental_div_mod(x, y);
    assert(x - m * y == x % y) by (nonlinear_arith)
        requires
            x == y * (x / y) + x % y,
            m == x / y,
    ;
    assert(abs(prev_r - q * r) == x - m * y);
    assert(m <= x && m * y <= x) by (nonlinear_arith)
        requires
            0 <= x - m * y,
            y >= 1,
            m >= 0,
    ;
    lemma_abs_product(q, r);
    lemma_abs_product(q, s);
    lemma_abs_product(q, t);
    lemma_step_bound(u, up, x, y, m, abs(b) as int);
    lemma_step_bound(v, vp, x, y, m, abs(a) as int);
    assert(m * abs(s) <= m * u && m * abs(t) <= m * v) by (nonlinear_arith)
        requires
            m >= 0,
            abs(s) <= u,
            abs(t) <= v,
    ;
}

/// The extended Euclidean algorithm on `a` and `b`: the triple (`s`, `t`,
/// `g`) on which the recurrence of [`euclid_run`] ends.
///
/// `g` is the greatest common divisor of `a` and `b` up to sign, and
/// `a * s + b * t` is `g`. The sign of `g` is the one that the recurrence
/// arrives at; it is positive when neither input is negative. The
/// intermediate values are held in double width, so every pair of inputs is
/// served.
pub fn extended_gcd(a: i64, b: i64) -> (res: (i64, i64, i64))
    ensures
        (res.0 as int, res.1 as int, res.2 as int) == bezout(a as int, b as int),
        a * res.0 + b * res.1 == res.2,
        is_gcd(abs(res.2 as int) as int, a as int, b as int),
        a >= 0 && b >= 0 ==> res.2 >= 0,
{
    let mut s: i128 = 0;
    let mut t: i128 = 1;
    let mut r: i128 = b as i128;
    let mut prev_s: i128 = 1;
    let mut prev_t: i128 = 0;
    let mut prev_r: i128 = a as i128;
    let ghost mut u: int = 0;
    let ghost mut up: int = 1;
    let ghost mut v: int = 1;
    let ghost mut vp: int = 0;
    proof {
        assert(0 * abs(a as int) + 1 * abs(b as int) == abs(b as int));
        assert(1 * abs(a as int) + 0 * abs(b as int) == abs(a as int));
    }
    while r != 0
        invariant
            euclid_run(prev_r as int, r as int, prev_s as int, s as int, prev_t as int, t as int)
                == bezout(a as int, b as int),
            bounded_state(
                a as int,
                b as int,
                prev_r as int,
                r as int,
                prev_s as int,
                s as int,
                prev_t as int,
                t as int,
                u,
                up,
                v,
                vp,
            ),
            i64::MIN <= prev_r <= i64::MAX,
            i64::MIN <= r <= i64::MAX,
        decreases abs(r as int),
    {
        proof {
            lemma_step_bounded(
                a as int,
                b as int,
                prev_r as int,
                r as int,
                prev_s as int,
                s as int,
                prev_t as int,
                t as int,
                u,
                up,
                v,
                vp,
            );
            lemma_truncated_division(prev_r as int, r as int);
        }
        let quotient: i128 = prev_r / r;
        assert(quotient == truncated_div(prev_r as int, r as int));
        let ghost m = abs(quotient as int) as int;
        let tr: i128 = r;
        r = prev_r - quotient * tr;
        prev_r = tr;

        let ts: i128 = s;
        s = prev_s - quotient * ts;
        prev_s = ts;

        let tt: i128 = t;
        t = prev_t - quotient * tt;
        prev_t = tt;
        proof {
            let grown_u = up + m * u;
            let grown_v = vp + m * v;
            up = u;
            vp = v;
            u = grown_u;
            v = grown_v;
        }
    }
    proof {
        lemma_bezout(a as int, b as int);
    }
    (prev_s as i64, prev_t as i64, prev_r as i64)
}

} // verus!
