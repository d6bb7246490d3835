//! Divisibility, greatest common divisors and primes, as mathematical
//! definitions with the lemmas that the rest of the library builds on.

use vstd::prelude::*;
use vstd::arithmetic::div_mod::{
    lemma_fundamental_div_mod,
    lemma_fundamental_div_mod_converse,
    lemma_small_mod,
};

verus! {

/// `d` divides `n`. Zero divides only zero.
pub open spec fn divides(d: int, n: int) -> bool {
    if d == 0 {
        n == 0
    } else {
        n % d == 0
    }
}

/// `g` is the greatest common divisor of `a` and `b`: a non-negative common
/// divisor that every positive common divisor divides.
pub open spec fn is_gcd(g: int, a: int, b: int) -> bool {
    &&& g >= 0
    &&& divides(g, a)
    &&& divides(g, b)
    &&& forall|d: int| d > 0 && #[trigger] divides(d, a) && divides(d, b) ==> divides(d, g)
}

/// `a` and `b` have no common divisor beyond one.
pub open spec fn coprime(a: int, b: int) -> bool {
    is_gcd(1, a, b)
}

/// `n` is a prime number: at least two, and divisible by nothing strictly
/// between one and itself.
pub open spec fn is_prime_number(n: int) -> bool {
    &&& n >= 2
    &&& forall|d: int| 1 < d < n ==> !#[trigger] divides(d, n)
}

/// A multiple of `d` is divisible by `d`.
pub proof fn lemma_divides_multiple(d: int, k: int)
    requires
        d > 0,
    ensures
        divides(d, d * k),
        divides(d, k * d),
{
    assert(d * k == k * d + 0) by (nonlinear_arith);
    assert(k * d == k * d + 0);
    lemma_fundamental_div_mod_converse(d * k, d, k, 0);
    lemma_fundamental_div_mod_converse(k * d, d, k, 0);
}

/// What `d` divides is `d` times the quotient.
pub proof fn lemma_divides_quotient(d: int, n: int)
    requires
        d > 0,
        divides(d, n),
    ensures
        n == d * (n / d),
{
    lemma_fundamental_div_mod(n, d);
}

/// A common divisor of `x` and `y` divides every integer combination of
/// them.
pub proof fn lemma_divides_combination(d: int, x: int, u: int, y: int, v: int)
    requires
        d > 0,
        divides(d, x),
        divides(d, y),
    ensures
        divides(d, x * u + y * v),
{
    lemma_divides_quotient(d, x);
    lemma_divides_quotient(d, y);
    let k = (x / d) * u + (y / d) * v;
    assert(x * u + y * v == d * k) by (nonlinear_arith)
        requires
            x == d * (x / d),
            y == d * (y / d),
            k == (x / d) * u + (y / d) * v,
    ;
    lemma_divides_multiple(d, k);
}

/// Divisibility is transitive.
pub proof fn lemma_divides_transitive(a: int, b: int, c: int)
    requires
        a > 0,
        b > 0,
        divides(a, b),
        divides(b, c),
    ensures
        divides(a, c),
{
    lemma_divides_quotient(b, c);
    lemma_divides_combination(a, b, c / b, 0, 0);
    assert(b * (c / b) + 0 * 0 == c);
}

/// A positive divisor of a positive number does not exceed it.
pub proof fn lemma_divisor_bound(d: int, n: int)
    requires
        d > 0,
        n > 0,
        divides(d, n),
    ensures
        d <= n,
{
    if d > n {
        lemma_small_mod(n as nat, d as nat);
    }
}

/// Two non-negative numbers that divide each other are equal.
pub proof fn lemma_divides_antisymmetric(x: int, y: int)
    requires
        x >= 0,
        y >= 0,
        divides(x, y),
        divides(y, x),
    ensures
        x == y,
{
    if x > 0 && y > 0 {
        lemma_divisor_bound(x, y);
        lemma_divisor_bound(y, x);
    }
}

/// A pair of numbers has at most one greatest common divisor.
pub proof fn lemma_gcd_unique(g: int, h: int, a: int, b: int)
    requires
        is_gcd(g, a, b),
        is_gcd(h, a, b),
    ensures
        g == h,
{
    if g == 0 {
        assert(a == 0 && b == 0);
        if h > 0 {
            // h + 1 divides a == 0 and b == 0, so it would divide h
            lemma_divides_multiple(h + 1, 0);
            assert(divides(h + 1, a));
            assert(divides(h + 1, h));
            lemma_divisor_bound(h + 1, h);
        }
    } else if h == 0 {
        assert(a == 0 && b == 0);
        lemma_divides_multiple(g + 1, 0);
        assert(divides(g + 1, a));
        assert(divides(g + 1, g));
        lemma_divisor_bound(g + 1, g);
    } else {
        assert(divides(g, a));
        assert(divides(h, a));
        assert(divides(g, h));
        assert(divides(h, g));
        lemma_divides_antisymmetric(g, h);
    }
}

/// Adding a multiple of `m` to `x` leaves the greatest common divisor with
/// `m` unchanged.
pub proof fn lemma_gcd_shift(g: int, x: int, k: int, m: int)
    requires
        is_gcd(g, x, m),
    ensures
        is_gcd(g, x + k * m, m),
{
    let y = x + k * m;
    if g > 0 {
        lemma_divides_combination(g, x, 1, m, k);
        assert(x * 1 + m * k == y) by (nonlinear_arith)
            requires
                y == x + k * m,
        ;
    } else {
        assert(x == 0 && m == 0);
        assert(k * m == 0) by (nonlinear_arith)
            requires
                m == 0,
        ;
    }
    assert forall|d: int| d > 0 && #[trigger] divides(d, y) && divides(d, m) implies divides(
        d,
        g,
    ) by {
        lemma_divides_combination(d, y, 1, m, -k);
        assert(y * 1 + m * (-k) == x) by (nonlinear_arith)
            requires
                y == x + k * m,
        ;
        assert(divides(d, x));
    }
}

/// Every number from two on has a prime divisor.
pub proof fn lemma_prime_divisor(n: int) -> (p: int)
    requires
        n >= 2,
    ensures
        is_prime_number(p),
        divides(p, n),
        2 <= p <= n,
    decreases n,
{
    if is_prime_number(n) {
        lemma_divides_multiple(n, 1);
        assert(n * 1 == n);
        n
    } else {
        let d = choose|d: int| 1 < d < n && divides(d, n);
        let p = lemma_prime_divisor(d);
        lemma_divides_transitive(p, d, n);
        p
    }
}

/// A composite number has a prime divisor whose square does not exceed it.
pub proof fn lemma_small_prime_divisor(n: int) -> (p: int)
    requires
        n >= 2,
        !is_prime_number(n),
    ensures
        is_prime_number(p),
        divides(p, n),
        p * p <= n,
{
    let d = choose|d: int| 1 < d < n && divides(d, n);
    let e = n / d;
    lemma_divides_quotient(d, n);
    assert(1 < e < n) by (nonlinear_arith)
        requires
            n == d * e,
            1 < d < n,
    ;
    lemma_divides_multiple(e, d);
    assert(e * d == n) by (nonlinear_arith)
        requires
            n == d * e,
    ;
    let x = if d <= e { d } else { e };
    assert(x * x <= n) by (nonlinear_arith)
        requires
            n == d * e,
            x == (if d <= e { d } else { e }),
            d > 1,
            e > 1,
    ;
    let p = lemma_prime_divisor(x);
    lemma_divides_transitive(p, x, n);
    assert(p * p <= x * x) by (nonlinear_arith)
        requires
            2 <= p <= x,
    ;
    p
}

/// A number from two on is prime as soon as no prime whose square does not
/// exceed it divides it.
pub proof fn lemma_prime_by_small_divisors(n: int)
    requires
        n >= 2,
        forall|p: int| #[trigger] is_prime_number(p) && p * p <= n ==> !divides(p, n),
    ensures
        is_prime_number(n),
{
    if !is_prime_number(n) {
        let p = lemma_small_prime_divisor(n);
        assert(is_prime_number(p) && p * p <= n);
    }
}

/// A prime beyond three leaves one or five when divided by six.
pub proof fn lemma_prime_residue(p: int)
    requires
        is_prime_number(p),
        p > 3,
    ensures
        p % 6 == 1 || p % 6 == 5,
{
    assert(!divides(2, p));
    assert(!divides(3, p));
}

/// Two, three and five are prime.
pub proof fn lemma_first_primes()
    ensures
        is_prime_number(2),
        is_prime_number(3),
        is_prime_number(5),
{
    assert forall|d: int| 1 < d < 5 implies !#[trigger] divides(d, 5) by {
        if d == 2 {
        } else if d == 3 {
        } else {
            assert(d == 4);
        }
    }
    assert forall|d: int| 1 < d < 3 implies !#[trigger] divides(d, 3) by {
        assert(d == 2);
    }
}

} // verus!
