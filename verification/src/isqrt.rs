//! Floor square root by the binary digit-by-digit method.

use vstd::prelude::*;
use vstd::arithmetic::power2::{pow2, lemma2_to64, lemma_pow2_unfold, lemma_pow2_pos};

verus! {

/// `r` is the floor of the square root of `n`: the one natural number whose
/// square does not exceed `n` while the square of its successor does.
pub open spec fn is_floor_sqrt(r: int, n: int) -> bool {
    &&& 0 <= r
    &&& r * r <= n
    &&& n < (r + 1) * (r + 1)
}

/// The floor of the square root of a non-negative `n`.
///
/// Works on pairs of bits from the top down. `bit` is the power of four under
/// consideration; `res` holds the digits of the root found so far, scaled so
/// that adding `bit` to it yields the amount that the next digit would take
/// out of the remainder `op`.
pub fn integer_square_root(n: i64) -> (r: i64)
    requires
        n >= 0,
    ensures
        is_floor_sqrt(r as int, n as int),
{
    let mut op: u64 = n as u64;
    let mut res: u64 = 0;
    let mut bit: u64 = 1u64 << 62;
    let ghost mut level: nat = 31;
    proof {
        lemma2_to64();
        assert(1u64 << 62 == 0x4000_0000_0000_0000u64) by (bit_vector);
        assert(pow2(31) * pow2(31) == 0x4000_0000_0000_0000);
    }
    while bit > op
        invariant
            op == n,
            n >= 0,
            bit == 0 ==> n == 0,
            bit > 0 ==> bit == pow2(level) * pow2(level) && n < 4 * bit,
            bit <= 0x4000_0000_0000_0000,
        decreases bit,
    {
        proof {
            lemma_quarter(bit, level);
        }
        bit = bit >> 2;
        proof {
            if level > 0 {
                level = (level - 1) as nat;
            }
        }
    }
    // `root` is the part of the square root that is settled; `grain` is the
    // weight of its lowest settled digit, twice the square root of `bit`.
    let ghost mut root: int = 0;
    let ghost mut grain: int = if bit == 0 { 1int } else { 2 * (pow2(level) as int) };
    proof {
        lemma_pow2_pos(level);
        assert((0 + grain) * (0 + grain) == grain * grain);
        if bit > 0 {
            assert(grain * grain == 4 * bit) by (nonlinear_arith)
                requires
                    grain == 2 * pow2(level),
                    bit == pow2(level) * pow2(level),
            ;
        }
    }
    while bit != 0
        invariant
            0 <= n,
            bit <= 0x4000_0000_0000_0000,
            bit > 0 ==> bit == pow2(level) * pow2(level) && grain == 2 * pow2(level),
            bit == 0 ==> grain == 1,
            grain >= 1,
            0 <= root,
            root == 0 || root >= grain,
            res == root * grain,
            op == n - root * root,
            root * root <= n < (root + grain) * (root + grain),
        decreases bit,
    {
        let ghost half: int = pow2(level) as int;
        proof {
            lemma_pow2_pos(level);
            lemma_quarter(bit, level);
            assert(root * grain <= root * root) by (nonlinear_arith)
                requires
                    root == 0 || root >= grain,
                    0 <= root,
                    grain >= 1,
            ;
            lemma_square_of_sum(root, half);
            assert(root * grain == 2 * (root * half)) by (nonlinear_arith)
                requires
                    grain == 2 * half,
            ;
            assert((root + half + half) * (root + half + half) == (root + grain) * (root + grain))
                by (nonlinear_arith)
                requires
                    grain == 2 * half,
            ;
            assert((root + half) * half == root * half + half * half) by (nonlinear_arith);
        }
        let shifted: u64 = bit << 1;
        assert(shifted == 2 * bit) by (bit_vector)
            requires
                shifted == bit << 1,
                bit <= 0x4000_0000_0000_0000u64,
        ;
        if op >= res + bit {
            op = op - (res + bit);
            res = res + shifted;
            proof {
                root = root + half;
            }
        }
        let halved: u64 = res >> 1;
        assert(halved == res / 2) by (bit_vector)
            requires
                halved == res >> 1,
        ;
        res = halved;
        bit = bit >> 2;
        proof {
            grain = half;
            if level > 0 {
                level = (level - 1) as nat;
                lemma_pow2_unfold((level + 1) as nat);
            } else {
                lemma2_to64();
            }
        }
    }
    proof {
        assert(root <= root * root) by (nonlinear_arith)
            requires
                0 <= root,
        ;
    }
    res as i64
}

/// Whatever has a square within `n` lies within the floor square root of
/// `n`, and nothing else does.
pub proof fn lemma_below_floor_sqrt(x: int, r: int, n: int)
    requires
        is_floor_sqrt(r, n),
        0 <= x,
    ensures
        x * x <= n <==> x <= r,
{
    if x <= r {
        assert(x * x <= r * r) by (nonlinear_arith)
            requires
                0 <= x <= r,
        ;
    } else {
        assert((r + 1) * (r + 1) <= x * x) by (nonlinear_arith)
            requires
                0 <= r + 1 <= x,
        ;
    }
}

/// A number has one floor square root.
pub proof fn lemma_floor_sqrt_unique(r: int, s: int, n: int)
    requires
        is_floor_sqrt(r, n),
        is_floor_sqrt(s, n),
    ensures
        r == s,
{
    lemma_below_floor_sqrt(r, s, n);
    lemma_below_floor_sqrt(s, r, n);
}

/// Shifting a square of a power of two right by two bits gives the square of
/// the next lower power, or nothing when the power was the zeroth.
proof fn lemma_quarter(bit: u64, level: nat)
    requires
        bit > 0 ==> bit == pow2(level) * pow2(level),
    ensures
        bit > 0 && level > 0 ==> (bit >> 2) == pow2((level - 1) as nat) * pow2((level - 1) as nat)
            && (bit >> 2) > 0 && 4 * (bit >> 2) == bit,
        bit > 0 && level == 0 ==> bit == 1 && (bit >> 2) == 0,
        bit == 0 ==> (bit >> 2) == 0,
        (bit >> 2) <= bit,
        bit > 0 ==> (bit >> 2) < bit,
{
    let q = bit >> 2;
    assert(q == bit / 4) by (bit_vector)
        requires
            q == bit >> 2,
    ;
    if bit > 0 {
        if level > 0 {
            let lower = pow2((level - 1) as nat);
            lemma_pow2_unfold(level);
            lemma_pow2_pos((level - 1) as nat);
            assert(pow2(level) * pow2(level) == 4 * (lower * lower)) by (nonlinear_arith)
                requires
                    pow2(level) == 2 * lower,
            ;
            assert(lower * lower > 0) by (nonlinear_arith)
                requires
                    lower > 0,
            ;
        } else {
            lemma2_to64();
        }
    }
}

/// The binomial square.
proof fn lemma_square_of_sum(x: int, y: int)
    ensures
        (x + y) * (x + y) == x * x + 2 * (x * y) + y * y,
{
    assert((x + y) * (x + y) == x * x + 2 * (x * y) + y * y) by (nonlinear_arith);
}

} // verus!
