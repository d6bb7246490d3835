//! A table of the small primes and a deterministic primality test built on
//! it: look the number up while the table reaches it, divide by the table's
//! entries beyond that, and continue with a wheel over the residues one and
//! five modulo six once the table is exhausted.

use vstd::prelude::*;
use crate::divisibility::{
    divides,
    is_prime_number,
    lemma_first_primes,
    lemma_prime_by_small_divisors,
    lemma_prime_residue,
};
use crate::isqrt::{integer_square_root, is_floor_sqrt, lemma_below_floor_sqrt};

verus! {

/// The number up to which the default table holds every prime. It is
/// itself a prime, the ten-thousandth.
pub const DEFAULT_LIMIT: i64 = 104729;

/// `p` occurs in `s`.
pub open spec fn listed(s: Seq<i64>, p: int) -> bool {
    exists|i: int| 0 <= i < s.len() && #[trigger] s[i] == p
}

/// `s` lists the primes up to `limit`: in strictly increasing order, nothing
/// but primes, and every prime that does not exceed `limit`.
pub open spec fn lists_primes_up_to(s: Seq<i64>, limit: int) -> bool {
    &&& forall|i: int, j: int| 0 <= i < j < s.len() ==> s[i] < s[j]
    &&& forall|i: int| 0 <= i < s.len() ==> is_prime_number(#[trigger] s[i] as int) && s[i] <= limit
    &&& forall|p: int| #[trigger] is_prime_number(p) && p <= limit ==> listed(s, p)
}

/// What dividing by the entries of a table, in order, came to.
enum Trial {
    /// An entry within the ceiling divides the number.
    Factor,
    /// An entry beyond the ceiling was reached, and none before it divides
    /// the number.
    Clear,
    /// Every entry lies within the ceiling and none divides the number.
    Exhausted,
}

/// Divides `n` by the entries of `entries` from index `start` on, as far as
/// they do not exceed `ceiling`.
fn trial_divide(entries: &Vec<i64>, start: usize, n: i64, ceiling: i64) -> (out: Trial)
    requires
        n >= 0,
        start <= entries.len(),
        forall|i: int| 0 <= i < entries.len() ==> #[trigger] entries[i] > 0,
        forall|i: int, j: int| 0 <= i < j < entries.len() ==> entries[i] < entries[j],
    ensures
        out is Factor <==> exists|i: int|
            start <= i < entries.len() && #[trigger] entries[i] <= ceiling && divides(
                entries[i] as int,
                n as int,
            ),
        out is Exhausted ==> forall|i: int|
            start <= i < entries.len() ==> #[trigger] entries[i] <= ceiling,
        out is Clear ==> exists|i: int| start <= i < entries.len() && #[trigger] entries[i] > ceiling,
{
    let mut i: usize = start;
    while i < entries.len()
        invariant
            n >= 0,
            start <= i <= entries.len(),
            forall|k: int| 0 <= k < entries.len() ==> #[trigger] entries[k] > 0,
            forall|k: int, j: int| 0 <= k < j < entries.len() ==> entries[k] < entries[j],
            forall|k: int|
                start <= k < i ==> #[trigger] entries[k] <= ceiling && !divides(
                    entries[k] as int,
                    n as int,
                ),
        decreases entries.len() - i,
    {
        let p: i64 = entries[i];
        if p > ceiling {
            assert forall|k: int|
                start <= k < entries.len() && #[trigger] entries[k] <= ceiling implies !divides(
                entries[k] as int,
                n as int,
            ) by {
                if k >= i {
                    assert(entries[i as int] <= entries[k]);
                }
            }
            return Trial::Clear;
        }
        if n % p == 0 {
            return Trial::Factor;
        }
        i = i + 1;
    }
    Trial::Exhausted
}

/// Whether a number from `after + 1` to `ceiling` that leaves one or five
/// modulo six divides `n`.
pub open spec fn wheel_factor(n: int, after: int, ceiling: int) -> bool {
    exists|w: int|
        after < w <= ceiling && (w % 6 == 1 || w % 6 == 5) && #[trigger] divides(w, n)
}

/// Divides `n` by the numbers beyond `after`, up to `ceiling`, that are
/// multiples of neither two nor three: from `after`, which is itself such a
/// number, the steps alternate between two and four.
fn wheel_divide(n: i64, after: i64, ceiling: i64) -> (found: bool)
    requires
        n >= 0,
        after >= 5,
        after % 6 == 1 || after % 6 == 5,
        0 <= ceiling <= 0x1_0000_0000,
    ensures
        found == wheel_factor(n as int, after as int, ceiling as int),
{
    let mut step: i64 = if after % 6 == 5 { 2 } else { 4 };
    let mut p: i64 = after;
    while p <= ceiling - step
        invariant
            n >= 0,
            after >= 5,
            after <= p,
            0 <= ceiling <= 0x1_0000_0000,
            p <= ceiling || p == after,
            p % 6 == 1 || p % 6 == 5,
            p % 6 == 5 ==> step == 2,
            p % 6 == 1 ==> step == 4,
            !wheel_factor(n as int, after as int, p as int),
        decreases ceiling - p,
    {
        let ghost before = p;
        p = p + step;
        step = 6 - step;
        if n % p == 0 {
            assert(divides(p as int, n as int));
            return true;
        }
        assert(!wheel_factor(n as int, after as int, p as int)) by {
            assert forall|w: int|
                after < w <= p && (w % 6 == 1 || w % 6 == 5) implies !#[trigger] divides(
                w,
                n as int,
            ) by {
                if w <= before {
                    assert(!wheel_factor(n as int, after as int, before as int));
                }
            }
        }
    }
    assert(!wheel_factor(n as int, after as int, ceiling as int)) by {
        assert forall|w: int|
            after < w <= ceiling && (w % 6 == 1 || w % 6 == 5) implies !#[trigger] divides(
            w,
            n as int,
        ) by {
            if w <= p {
                assert(!wheel_factor(n as int, after as int, p as int));
            }
        }
    }
    false
}

/// What the primality test reports for `n`: whether `n` is prime, with two
/// standing exceptions. One is reported as prime, and three, which the
/// shortcut for multiples of three turns away, is not.
pub open spec fn reported_prime(n: int) -> bool {
    n == 1 || (n != 3 && is_prime_number(n))
}

/// The cases that need no table: nothing below one is prime, one and two
/// are accepted, multiples of two and of three are turned away.
fn quick_verdict(n: i64) -> (verdict: Option<bool>)
    ensures
        match verdict {
            Some(prime) => prime == reported_prime(n as int),
            None => n >= 5 && !divides(2, n as int) && !divides(3, n as int),
        },
{
    if n < 1 {
        return Some(false);
    }
    if n == 1 {
        return Some(true);
    }
    if n == 2 {
        proof {
            lemma_first_primes();
        }
        return Some(true);
    }
    if n % 2 == 0 {
        assert(divides(2, n as int));
        return Some(false);
    }
    if n % 3 == 0 {
        assert(divides(3, n as int));
        return Some(false);
    }
    None
}

/// The floor square root of a number from two on is smaller than the number.
proof fn lemma_floor_sqrt_smaller(r: int, n: int)
    requires
        n >= 2,
        is_floor_sqrt(r, n),
    ensures
        r < n,
        r < 0x1_0000_0000 || n >= 0x1_0000_0000_0000_0000,
{
    if r >= n {
        assert(r * r > n) by (nonlinear_arith)
            requires
                r >= n,
                n >= 2,
        ;
    }
    if r >= 0x1_0000_0000 {
        assert(r * r >= 0x1_0000_0000_0000_0000) by (nonlinear_arith)
            requires
                r >= 0x1_0000_0000,
        ;
    }
}

/// From the floor square root of `n` to that of `n + 1`: it grows by one
/// where `n + 1` is the next square, and stays otherwise.
proof fn lemma_next_floor_sqrt(r: int, n: int)
    requires
        n >= 2,
        n < 0x7fff_ffff_ffff_ffff,
        is_floor_sqrt(r, n),
    ensures
        r + 1 <= 0x1_0000_0000,
        (r + 1) * (r + 1) < 0x1_0000_0000_0000_0000,
        (r + 1) * (r + 1) <= n + 1 ==> is_floor_sqrt(r + 1, n + 1),
        (r + 1) * (r + 1) > n + 1 ==> is_floor_sqrt(r, n + 1),
{
    lemma_floor_sqrt_smaller(r, n);
    assert((r + 1) * (r + 1) == r * r + 2 * r + 1) by (nonlinear_arith);
    assert((r + 2) * (r + 2) == (r + 1) * (r + 1) + 2 * r + 3) by (nonlinear_arith);
}

/// Among the entries of a listing of primes, `n` is prime as soon as none
/// within its floor square root divides it, provided that the listing reaches
/// that far.
proof fn lemma_prime_by_listing(s: Seq<i64>, limit: int, start: int, n: int, ceiling: int)
    requires
        lists_primes_up_to(s, limit),
        n >= 2,
        is_floor_sqrt(ceiling, n),
        ceiling <= limit,
        0 <= start <= s.len(),
        forall|i: int| 0 <= i < start ==> !divides(#[trigger] s[i] as int, n),
        forall|i: int|
            start <= i < s.len() && #[trigger] s[i] <= ceiling ==> !divides(s[i] as int, n),
    ensures
        is_prime_number(n),
{
    assert forall|p: int| #[trigger] is_prime_number(p) && p * p <= n implies !divides(p, n) by {
        lemma_below_floor_sqrt(p, ceiling, n);
        assert(listed(s, p));
        let i = choose|i: int| 0 <= i < s.len() && #[trigger] s[i] == p;
        assert(!divides(s[i] as int, n));
    }
    lemma_prime_by_small_divisors(n);
}

/// A number with a divisor strictly between one and itself is not prime.
proof fn lemma_composite(d: int, n: int)
    requires
        1 < d < n,
        divides(d, n),
    ensures
        !is_prime_number(n),
{
}

/// The primes up to a limit, in increasing order.
pub struct PrimeTable {
    entries: Vec<i64>,
    limit: i64,
}

impl PrimeTable {
    #[verifier::type_invariant]
    spec fn well_formed(self) -> bool {
        &&& self.limit >= 5
        &&& lists_primes_up_to(self.entries@, self.limit as int)
        &&& self.entries@.len() >= 3
        &&& self.entries@[0] == 2
        &&& self.entries@[1] == 3
    }

    /// The entries of the table, in order.
    pub closed spec fn view(&self) -> Seq<i64> {
        self.entries@
    }

    /// The number up to which the table holds every prime.
    pub closed spec fn covers(&self) -> int {
        self.limit as int
    }

    /// The table of the primes up to `limit`, found by dividing each
    /// candidate by the primes already in the table.
    pub fn with_limit(limit: i64) -> (table: PrimeTable)
        requires
            limit >= 5,
        ensures
            table.covers() == limit,
            lists_primes_up_to(table@, limit as int),
    {
        let mut entries: Vec<i64> = Vec::new();
        let mut candidate: i64 = 2;
        // the floor square root of `candidate`
        let mut ceiling: i64 = 1;
        proof {
            assert(is_floor_sqrt(1, 2)) by (nonlinear_arith);
        }
        loop
            invariant_except_break
                2 <= candidate <= limit,
                limit >= 5,
                is_floor_sqrt(ceiling as int, candidate as int),
                lists_primes_up_to(entries@, candidate - 1),
                candidate == 2 ==> entries@.len() == 0,
                candidate == 3 ==> entries@.len() == 1,
                candidate >= 3 ==> entries@.len() >= 1 && entries@[0] == 2,
                candidate >= 4 ==> entries@.len() >= 2 && entries@[1] == 3,
                candidate >= 6 ==> entries@.len() >= 3,
            ensures
                lists_primes_up_to(entries@, limit as int),
                entries@.len() >= 3,
                entries@[0] == 2,
                entries@[1] == 3,
            decreases limit - candidate,
        {
            let ghost known = entries@;
            proof {
                lemma_floor_sqrt_smaller(ceiling as int, candidate as int);
                lemma_first_primes();
            }
            match trial_divide(&entries, 0, candidate, ceiling) {
                Trial::Factor => {
                    proof {
                        let i = choose|i: int|
                            0 <= i < known.len() && #[trigger] known[i] <= ceiling && divides(
                                known[i] as int,
                                candidate as int,
                            );
                        lemma_composite(known[i] as int, candidate as int);
                    }
                },
                _ => {
                    proof {
                        lemma_prime_by_listing(
                            known,
                            candidate - 1,
                            0,
                            candidate as int,
                            ceiling as int,
                        );
                    }
                    entries.push(candidate);
                    proof {
                        let grown = entries@;
                        assert forall|p: int| #[trigger]
                            is_prime_number(p) && p <= candidate implies listed(grown, p) by {
                            if p == candidate {
                                assert(grown[known.len() as int] == p);
                            } else {
                                assert(listed(known, p));
                                let i = choose|i: int| 0 <= i < known.len() && #[trigger] known[i] == p;
                                assert(grown[i] == p);
                            }
                        }
                    }
                },
            }
            if candidate == limit {
                break ;
            }
            candidate = candidate + 1;
            let next: u64 = (ceiling + 1) as u64;
            proof {
                lemma_next_floor_sqrt(ceiling as int, candidate - 1);
            }
            if next * next <= candidate as u64 {
                ceiling = ceiling + 1;
            }
        }
        PrimeTable { entries, limit }
    }

    /// The table of the first ten thousand primes.
    pub fn new() -> (table: PrimeTable)
        ensures
            table.covers() == DEFAULT_LIMIT,
            lists_primes_up_to(table@, DEFAULT_LIMIT as int),
    {
        PrimeTable::with_limit(DEFAULT_LIMIT)
    }

    /// Whether `n` is prime, for an `n` that the shortcuts leave undecided:
    /// looked up in the table while the table reaches it; beyond that,
    /// divided by the entries from the third on and then by the wheel, up to
    /// the floor square root of `n`.
    fn decide(&self, n: i64) -> (prime: bool)
        requires
            n >= 5,
            !divides(2, n as int),
            !divides(3, n as int),
        ensures
            prime == is_prime_number(n as int),
    {
        proof {
            use_type_invariant(self);
        }
        let ghost s = self.entries@;
        let last: i64 = self.entries[self.entries.len() - 1];
        assert(s[1] < s[2] && s[2] <= last);
        if n > last {
            let ceiling: i64 = integer_square_root(n);
            proof {
                lemma_floor_sqrt_smaller(ceiling as int, n as int);
            }
            match trial_divide(&self.entries, 2, n, ceiling) {
                Trial::Factor => {
                    proof {
                        let i = choose|i: int|
                            2 <= i < s.len() && #[trigger] s[i] <= ceiling && divides(
                                s[i] as int,
                                n as int,
                            );
                        lemma_composite(s[i] as int, n as int);
                    }
                    false
                },
                Trial::Clear => {
                    proof {
                        lemma_prime_by_listing(s, self.limit as int, 2, n as int, ceiling as int);
                    }
                    true
                },
                Trial::Exhausted => {
                    proof {
                        lemma_prime_residue(last as int);
                    }
                    let found = wheel_divide(n, last, ceiling);
                    proof {
                        if found {
                            let w = choose|w: int|
                                last < w <= ceiling && (w % 6 == 1 || w % 6 == 5)
                                    && #[trigger] divides(w, n as int);
                            lemma_composite(w, n as int);
                        } else {
                            assert forall|p: int| #[trigger]
                                is_prime_number(p) && p * p <= n implies !divides(p, n as int) by {
                                lemma_below_floor_sqrt(p, ceiling as int, n as int);
                                if p <= self.limit {
                                    assert(listed(s, p));
                                    let i = choose|i: int| 0 <= i < s.len() && #[trigger] s[i] == p;
                                    assert(!divides(s[i] as int, n as int));
                                } else {
                                    lemma_prime_residue(p);
                                    assert(!wheel_factor(n as int, last as int, ceiling as int));
                                }
                            }
                            lemma_prime_by_small_divisors(n as int);
                        }
                    }
                    !found
                },
            }
        } else {
            self.contains(n)
        }
    }

    /// Whether `n` is prime, in the sense of [`reported_prime`].
    pub fn is_prime(&self, n: i64) -> (prime: bool)
        ensures
            prime == reported_prime(n as int),
            n >= 2 && n != 3 ==> prime == is_prime_number(n as int),
    {
        match quick_verdict(n) {
            Some(prime) => prime,
            None => self.decide(n),
        }
    }

    /// The number up to which the table holds every prime.
    pub fn limit(&self) -> (limit: i64)
        ensures
            limit == self.covers(),
            limit >= 5,
            lists_primes_up_to(self@, limit as int),
    {
        proof {
            use_type_invariant(self);
        }
        self.limit
    }

    /// The number of entries.
    pub fn len(&self) -> (count: usize)
        ensures
            count == self@.len(),
            count >= 3,
    {
        proof {
            use_type_invariant(self);
        }
        self.entries.len()
    }

    /// The entry at `index`, counting from zero: the prime with `index`
    /// smaller primes.
    pub fn get(&self, index: usize) -> (prime: i64)
        requires
            index < self@.len(),
        ensures
            prime == self@[index as int],
            is_prime_number(prime as int),
    {
        proof {
            use_type_invariant(self);
        }
        self.entries[index]
    }

    /// The last and largest entry.
    pub fn largest(&self) -> (prime: i64)
        ensures
            prime == self@.last(),
            is_prime_number(prime as int),
            5 <= prime <= self.covers(),
    {
        proof {
            use_type_invariant(self);
            lemma_first_primes();
            assert(listed(self.entries@, 5));
        }
        self.entries[self.entries.len() - 1]
    }

    /// Whether `n` is an entry of the table, by bisection.
    pub fn contains(&self, n: i64) -> (found: bool)
        ensures
            found == listed(self@, n as int),
    {
        proof {
            use_type_invariant(self);
        }
        let mut lo: usize = 0;
        let mut hi: usize = self.entries.len();
        while lo < hi
            invariant
                0 <= lo <= hi <= self.entries.len(),
                forall|i: int, j: int|
                    0 <= i < j < self.entries.len() ==> self.entries[i] < self.entries[j],
                forall|i: int| 0 <= i < lo ==> #[trigger] self.entries[i] < n,
                forall|i: int| hi <= i < self.entries.len() ==> #[trigger] self.entries[i] > n,
            decreases hi - lo,
        {
            let pivot: usize = lo + (hi - lo) / 2;
            let entry: i64 = self.entries[pivot];
            if entry == n {
                return true;
            }
            if entry > n {
                assert forall|i: int| pivot <= i < self.entries.len() implies #[trigger] self.entries[i]
                    > n by {
                    if i > pivot {
                        assert(self.entries[pivot as int] < self.entries[i]);
                    }
                }
                hi = pivot;
            } else {
                assert forall|i: int| 0 <= i < pivot + 1 implies #[trigger] self.entries[i] < n by {
                    if i < pivot {
                        assert(self.entries[i] < self.entries[pivot as int]);
                    }
                }
                lo = pivot + 1;
            }
        }
        false
    }
}

/// Whether `n` is prime, in the sense of [`reported_prime`].
///
/// Builds the default table when the shortcuts do not decide; to test many
/// numbers, build a [`PrimeTable`] once and ask it.
pub fn is_prime(n: i64) -> (prime: bool)
    ensures
        prime == reported_prime(n as int),
        n >= 2 && n != 3 ==> prime == is_prime_number(n as int),
{
    match quick_verdict(n) {
        Some(prime) => prime,
        None => PrimeTable::new().decide(n),
    }
}

} // verus!
