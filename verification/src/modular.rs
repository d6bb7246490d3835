//! Arithmetic modulo a positive modulus: residues, powers, inverses and
//! linear congruences.

use vstd::prelude::*;
use vstd::math::abs;
use vstd::arithmetic::div_mod::{
    lemma_fundamental_div_mod,
    lemma_mod_equivalence,
    lemma_mod_multiples_vanish,
    lemma_mul_mod_noop_left,
    lemma_mul_mod_noop_right,
    lemma_small_mod,
};
use vstd::arithmetic::power::pow;
use crate::divisibility::{
    coprime,
    divides,
    is_gcd,
    lemma_divides_combination,
    lemma_divisor_bound,
    lemma_gcd_shift,
    lemma_gcd_unique,
};
use crate::euclid::{bezout, extended_gcd, lemma_bezout};
use crate::truncation::lemma_truncated_remainder;

verus! {

/// The representative of `a` modulo `m` that lies in `[0, m)`.
///
/// The machine remainder keeps the sign of `a`; the sign bit of that
/// remainder, read as an unsigned word, decides whether `m` is added back.
pub fn modulo(a: i64, m: i64) -> (r: i64)
    requires
        m > 0,
    ensures
        0 <= r < m,
        r == (a as int) % (m as int),
        (a - r) % (m as int) == 0,
{
    proof {
        lemma_residue_congruent(a as int, m as int);
    }
    let t: i64 = a % m;
    let sign: u64 = (#[verifier::truncate] (t as u64)) >> 63;
    assert(sign == (if t < 0 { 1u64 } else { 0u64 })) by (bit_vector)
        requires
            sign == (t as u64) >> 63,
    ;
    proof {
        lemma_truncated_remainder(a as int, m as int);
    }
    let bump: i64 = sign as i64;
    assert(bump * m == (if t < 0 { m as int } else { 0 })) by (nonlinear_arith)
        requires
            bump == (if t < 0 { 1int } else { 0 }),
    ;
    t + bump * m
}

/// A number and its residue differ by a multiple of the modulus.
pub proof fn lemma_residue_congruent(a: int, m: int)
    requires
        m > 0,
    ensures
        (a - a % m) % m == 0,
{
    lemma_fundamental_div_mod(a, m);
    assert(a - a % m == (a / m) * m) by (nonlinear_arith)
        requires
            a == m * (a / m) + a % m,
    ;
    vstd::arithmetic::div_mod::lemma_mod_multiples_basic(a / m, m);
}

/// [`modulo`] for a double-width `a`, as products of two words are.
fn modulo_wide(a: i128, m: i64) -> (r: i64)
    requires
        m > 0,
    ensures
        0 <= r < m,
        r == (a as int) % (m as int),
{
    let wide: i128 = m as i128;
    let t: i128 = a % wide;
    let sign: u128 = (#[verifier::truncate] (t as u128)) >> 127;
    assert(sign == (if t < 0 { 1u128 } else { 0u128 })) by (bit_vector)
        requires
            sign == (t as u128) >> 127,
    ;
    proof {
        lemma_truncated_remainder(a as int, m as int);
    }
    let bump: i128 = sign as i128;
    assert(bump * wide == (if t < 0 { wide as int } else { 0 })) by (nonlinear_arith)
        requires
            bump == (if t < 0 { 1int } else { 0 }),
    ;
    (t + bump * wide) as i64
}

/// One multiplied by `b`, `e` times over, with a reduction modulo `m` after
/// each multiplication.
pub open spec fn power_by_steps(b: int, e: nat, m: int) -> int
    decreases e,
{
    if e == 0 {
        1
    } else {
        (b * power_by_steps(b, (e - 1) as nat, m)) % m
    }
}

/// Reducing after each multiplication gives the residue of the power.
pub proof fn lemma_power_by_steps(b: int, e: nat, m: int)
    requires
        m > 1,
    ensures
        power_by_steps(b, e, m) == pow(b, e) % m,
        0 <= power_by_steps(b, e, m) < m,
    decreases e,
{
    reveal(pow);
    if e == 0 {
        lemma_small_mod(1, m as nat);
    } else {
        let k = (e - 1) as nat;
        lemma_power_by_steps(b, k, m);
        lemma_mul_mod_noop_right(b, pow(b, k), m);
        vstd::arithmetic::div_mod::lemma_mod_bound(b * power_by_steps(b, k, m), m);
    }
}

/// `b` to the power `e` modulo `m`, by `e` multiplications, each followed by
/// a reduction. There is no result for a modulus below two.
pub fn power_mod(b: i64, e: u32, m: i64) -> (res: Option<i64>)
    ensures
        res is Some <==> m > 1,
        res matches Some(c) ==> 0 <= c < m && c == pow(b as int, e as nat) % (m as int) && c
            == power_by_steps(b as int, e as nat, m as int),
{
    if m <= 1 {
        return None;
    }
    if e == 0 {
        proof {
            lemma_power_by_steps(b as int, 0, m as int);
        }
        return Some(1);
    }
    let mut c: i64 = 1;
    let mut done: u32 = 0;
    while done != e
        invariant
            m > 1,
            done <= e,
            0 <= c < m,
            c == power_by_steps(b as int, done as nat, m as int),
        decreases e - done,
    {
        assert(-0x4000_0000_0000_0000_0000_0000_0000_0000 <= b * c
            <= 0x4000_0000_0000_0000_0000_0000_0000_0000) by (nonlinear_arith)
            requires
                -0x8000_0000_0000_0000 <= b <= 0x8000_0000_0000_0000,
                0 <= c <= 0x8000_0000_0000_0000,
        ;
        c = modulo_wide((b as i128) * (c as i128), m);
        done = done + 1;
    }
    proof {
        lemma_power_by_steps(b as int, e as nat, m as int);
    }
    Some(c)
}

/// Multiplication by a number coprime to the modulus can be undone: residues
/// that it sends to the same residue are equal.
pub proof fn lemma_coprime_cancels(a: int, m: int, x: int, y: int)
    requires
        m > 0,
        coprime(a, m),
        0 <= x < m,
        0 <= y < m,
        (a * x) % m == (a * y) % m,
    ensures
        x == y,
{
    let (s, t, g) = bezout(a, m);
    lemma_bezout(a, m);
    lemma_gcd_unique(abs(g) as int, 1, a, m);
    let d = x - y;
    lemma_mod_equivalence(a * x, a * y, m);
    assert(a * x - a * y == a * d) by (nonlinear_arith)
        requires
            d == x - y,
    ;
    assert(divides(m, a * d));
    crate::divisibility::lemma_divides_multiple(m, 1);
    assert(m * 1 == m);
    // d * g == (a * d) * s + m * (t * d)
    lemma_divides_combination(m, a * d, s, m, t * d);
    assert((a * d) * s + m * (t * d) == d * g) by (nonlinear_arith)
        requires
            a * s + m * t == g,
    ;
    assert(d * g == d || d * g == -d) by (nonlinear_arith)
        requires
            g == 1 || g == -1,
    ;
    if d != 0 {
        let magnitude = abs(d) as int;
        assert(divides(m, magnitude)) by {
            if d * g != magnitude {
                lemma_divides_combination(m, d * g, -1, m, 0);
                assert((d * g) * (-1) + m * 0 == magnitude);
            }
        }
        lemma_divisor_bound(m, magnitude);
    }
}

/// `v` is an inverse of `x` modulo `m`: a residue whose product with `x`
/// leaves one.
pub open spec fn is_inverse(v: int, x: int, m: int) -> bool {
    0 <= v < m && (x * v) % m == 1
}

/// The inverse of `x` modulo `m` where there is one, and zero where there is
/// none: for a modulus below two, and for an `x` that has a divisor in common
/// with `m`.
pub open spec fn inverse_mod(x: int, m: int) -> int {
    if m > 1 && coprime(x, m) {
        choose|v: int| is_inverse(v, x, m)
    } else {
        0
    }
}

/// The solution in `[0, m)` of `a * x = b (mod m)` where `a` has an inverse
/// modulo `m`.
pub open spec fn congruence_solution(a: int, b: int, m: int) -> Option<int> {
    if m > 1 && coprime(a, m) {
        Some((b * inverse_mod(a, m)) % m)
    } else {
        None
    }
}

/// The extended Euclidean algorithm, applied to the residue of `x` and to
/// `m`, tells whether `x` is coprime to `m`; where it is, the coefficient
/// that the algorithm gives for the residue, reduced modulo `m`, is the
/// inverse of `x`.
pub proof fn lemma_inverse_by_bezout(x: int, m: int)
    requires
        m > 0,
    ensures
        coprime(x, m) <==> bezout(x % m, m).2 == 1,
        m > 1 && coprime(x, m) ==> is_inverse(bezout(x % m, m).0 % m, x, m) && inverse_mod(x, m)
            == bezout(x % m, m).0 % m,
{
    let r = x % m;
    let (s, t, g) = bezout(r, m);
    vstd::arithmetic::div_mod::lemma_mod_bound(x, m);
    lemma_bezout(r, m);
    // the greatest common divisor of the residue and `m` is that of `x` and `m`
    lemma_fundamental_div_mod(x, m);
    lemma_gcd_shift(g, r, x / m, m);
    assert(r + (x / m) * m == x) by (nonlinear_arith)
        requires
            x == m * (x / m) + r,
    ;
    assert(is_gcd(g, x, m));
    if coprime(x, m) {
        lemma_gcd_unique(g, 1, x, m);
    }
    if m > 1 && g == 1 {
        let v = s % m;
        vstd::arithmetic::div_mod::lemma_mod_bound(s, m);
        lemma_mod_multiples_vanish(t, r * s, m);
        assert(m * t + r * s == 1) by (nonlinear_arith)
            requires
                r * s + m * t == 1,
        ;
        lemma_mul_mod_noop_left(x, s, m);
        lemma_mul_mod_noop_right(x, s, m);
        lemma_small_mod(1, m as nat);
        assert(is_inverse(v, x, m));
        let w = inverse_mod(x, m);
        assert(is_inverse(w, x, m));
        lemma_coprime_cancels(x, m, v, w);
    }
}

/// The inverse modulo `m` of a number coprime to `m` is a residue whose
/// product with that number leaves one; it is the only such residue; and it
/// is not zero. A number with a divisor in common with `m` has the inverse
/// zero.
pub proof fn lemma_inverse_mod(x: int, m: int)
    requires
        m > 1,
    ensures
        coprime(x, m) ==> is_inverse(inverse_mod(x, m), x, m) && inverse_mod(x, m) != 0,
        coprime(x, m) ==> forall|v: int| #[trigger] is_inverse(v, x, m) ==> v == inverse_mod(x, m),
        !coprime(x, m) ==> inverse_mod(x, m) == 0,
{
    if coprime(x, m) {
        lemma_inverse_by_bezout(x, m);
        let w = inverse_mod(x, m);
        if w == 0 {
            assert(x * w == 0) by (nonlinear_arith)
                requires
                    w == 0,
            ;
            lemma_small_mod(0, m as nat);
        }
        assert forall|v: int| #[trigger] is_inverse(v, x, m) implies v == w by {
            lemma_coprime_cancels(x, m, v, w);
        }
    }
}

/// What [`congruence_solution`] gives solves the congruence, lies in
/// `[0, m)`, and is the only residue that does.
pub proof fn lemma_congruence_solution(a: int, b: int, m: int)
    requires
        m > 1,
        coprime(a, m),
    ensures
        congruence_solution(a, b, m) matches Some(x) && 0 <= x < m && (a * x) % m == b % m
            && forall|y: int| 0 <= y < m && #[trigger] ((a * y) % m) == b % m ==> y == x,
{
    let inv = inverse_mod(a, m);
    let x = (b * inv) % m;
    lemma_inverse_mod(a, m);
    vstd::arithmetic::div_mod::lemma_mod_bound(b * inv, m);
    lemma_mul_mod_noop_right(a, b * inv, m);
    assert(a * (b * inv) == (a * inv) * b) by (nonlinear_arith);
    lemma_mul_mod_noop_left(a * inv, b, m);
    assert(1 * b == b);
    assert forall|y: int| 0 <= y < m && #[trigger] ((a * y) % m) == b % m implies y == x by {
        lemma_coprime_cancels(a, m, y, x);
    }
}

/// The inverse of `x` modulo `m`: the residue whose product with `x` leaves
/// one. Where `x` and `m` have a common divisor there is no inverse, and the
/// result is zero. Zero is also the result for the modulus one, where every
/// residue is zero, and for a modulus below one, which has no residues.
pub fn inv_modulo(x: i64, m: i64) -> (inv: i64)
    ensures
        inv == inverse_mod(x as int, m as int),
        inv != 0 <==> m > 1 && coprime(x as int, m as int),
        m > 0 ==> 0 <= inv < m,
        m > 1 && coprime(x as int, m as int) ==> (x * inv) % (m as int) == 1,
        m <= 1 || !coprime(x as int, m as int) ==> inv == 0,
{
    if m <= 0 {
        return 0;
    }
    let r: i64 = modulo(x, m);
    let (s, _t, gcd) = extended_gcd(r, m);
    proof {
        lemma_inverse_by_bezout(x as int, m as int);
        if m > 1 {
            lemma_inverse_mod(x as int, m as int);
        }
    }
    if gcd != 1 {
        return 0;
    }
    modulo(s, m)
}

/// The solution in `[0, m)` of `a * x = b (mod m)`, for a coefficient `a`
/// that has an inverse modulo `m`; that solution is the only one. Without an
/// inverse there is no answer, also where the congruence has several
/// solutions. A modulus below two, for which [`inv_modulo`] gives zero, has
/// no answer either.
pub fn solve_linear_congruence(a: i64, b: i64, m: i64) -> (res: Option<i64>)
    ensures
        res is Some <==> m > 1 && coprime(a as int, m as int),
        res matches Some(x) ==> Some(x as int) == congruence_solution(a as int, b as int, m as int),
        res matches Some(x) ==> 0 <= x < m && (a * x) % (m as int) == (b as int) % (m as int),
{
    let a_inv: i64 = inv_modulo(a, m);
    if a_inv != 0 {
        assert(-0x4000_0000_0000_0000_0000_0000_0000_0000 <= b * a_inv
            <= 0x4000_0000_0000_0000_0000_0000_0000_0000) by (nonlinear_arith)
            requires
                -0x8000_0000_0000_0000 <= b <= 0x8000_0000_0000_0000,
                0 <= a_inv <= 0x8000_0000_0000_0000,
        ;
        proof {
            lemma_congruence_solution(a as int, b as int, m as int);
        }
        return Some(modulo_wide((b as i128) * (a_inv as i128), m));
    }
    None
}

} // verus!
