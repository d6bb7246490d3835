use numbers::{inv_modulo, modulo, power_mod, solve_linear_congruence};

fn reference_gcd(a: i128, b: i128) -> i128 {
    let (mut x, mut y) = (a.abs(), b.abs());
    while y != 0 {
        let r = x % y;
        x = y;
        y = r;
    }
    x
}

const SAMPLES: [i64; 17] = [
    i64::MIN,
    i64::MIN + 1,
    -4_294_967_297,
    -2_147_483_649,
    -2_147_483_648,
    -82,
    -4,
    -1,
    0,
    1,
    4,
    101,
    2_147_483_647,
    2_147_483_648,
    4_294_967_296,
    i64::MAX - 1,
    i64::MAX,
];

const MODULI: [i64; 11] =
    [1, 2, 7, 8, 11, 13, 255, 2_147_483_648, 4_294_967_311, i64::MAX - 1, i64::MAX];

#[test]
fn modulo_is_the_residue_in_range() {
    for &a in SAMPLES.iter() {
        for &m in MODULI.iter() {
            let r = modulo(a, m);
            assert!(0 <= r && r < m, "modulo({a}, {m}) = {r}");
            assert_eq!((r as i128 - a as i128) % (m as i128), 0);
            assert_eq!(r, a.rem_euclid(m));
        }
    }
}

#[test]
fn modulo_of_small_values() {
    for m in 1..40i64 {
        for a in -200..200i64 {
            assert_eq!(modulo(a, m), a.rem_euclid(m));
        }
    }
}

#[test]
fn modulo_sees_the_sign_beyond_thirty_two_bits() {
    // remainders whose low word alone would give the wrong sign
    assert_eq!(modulo(2_147_483_648, 4_294_967_311), 2_147_483_648);
    assert_eq!(modulo(-2_147_483_649, 4_294_967_311), 4_294_967_311 - 2_147_483_649);
    assert_eq!(modulo(i64::MIN, i64::MAX), i64::MAX - 1);
    assert_eq!(modulo(-1, i64::MAX), i64::MAX - 1);
}

#[test]
fn inverse_times_value_leaves_one() {
    for &m in MODULI.iter() {
        for &x in SAMPLES.iter() {
            let inv = inv_modulo(x, m);
            assert!(0 <= inv && inv < m);
            if reference_gcd(x as i128, m as i128) == 1 && m > 1 {
                assert_eq!((x as i128 * inv as i128).rem_euclid(m as i128), 1, "x={x} m={m}");
            } else {
                assert_eq!(inv, 0, "x={x} m={m}");
            }
        }
    }
}

#[test]
fn inverse_of_small_values() {
    for m in 1..60i64 {
        for x in -70..70i64 {
            let inv = inv_modulo(x, m);
            if reference_gcd(x as i128, m as i128) == 1 && m > 1 {
                assert_eq!(modulo(x * inv, m), 1);
            } else {
                assert_eq!(inv, 0);
            }
        }
    }
}

#[test]
fn inverse_examples() {
    assert_eq!(inv_modulo(4, 7), 2);
    assert_eq!(inv_modulo(3, 11), 4);
    assert_eq!(inv_modulo(-4, 11), 8);
    assert_eq!(inv_modulo(6, 9), 0);
    assert_eq!(inv_modulo(0, 7), 0);
    // every residue is zero modulo one
    assert_eq!(inv_modulo(5, 1), 0);
}

#[test]
fn power_matches_repeated_multiplication() {
    for m in 2..30i64 {
        for b in -12..13i64 {
            let mut expected: i64 = 1;
            for e in 0..12u32 {
                assert_eq!(power_mod(b, e, m), Some(expected), "b={b} e={e} m={m}");
                expected = (b * expected).rem_euclid(m);
            }
        }
    }
}

#[test]
fn power_examples() {
    assert_eq!(power_mod(2, 5, 13), Some(6));
    assert_eq!(power_mod(2, 10, 1000), Some(24));
    assert_eq!(power_mod(7, 0, 5), Some(1));
    assert_eq!(power_mod(0, 0, 5), Some(1));
    assert_eq!(power_mod(0, 3, 5), Some(0));
    // a negative base still gives a residue in range
    assert_eq!(power_mod(-2, 1, 13), Some(11));
    assert_eq!(power_mod(-2, 3, 13), Some(5));
}

#[test]
fn power_of_wide_operands_does_not_overflow() {
    let m = i64::MAX;
    // (m - 1)^2 = 1 (mod m)
    assert_eq!(power_mod(m - 1, 2, m), Some(1));
    assert_eq!(power_mod(m - 1, 3, m), Some(m - 1));
    assert_eq!(power_mod(i64::MIN, 1, m), Some(m - 1));
    assert_eq!(power_mod(i64::MIN, 2, m), Some(1));
}

#[test]
fn power_has_no_result_below_modulus_two() {
    for e in [0u32, 1, 5] {
        for m in [1i64, 0, -1, -13, i64::MIN] {
            assert_eq!(power_mod(2, e, m), None);
        }
    }
}

#[test]
fn congruence_solution_satisfies_the_congruence() {
    for &m in MODULI.iter() {
        for &a in SAMPLES.iter() {
            for &b in SAMPLES.iter() {
                match solve_linear_congruence(a, b, m) {
                    Some(x) => {
                        assert!(0 <= x && x < m);
                        assert!(m > 1);
                        assert_eq!(reference_gcd(a as i128, m as i128), 1);
                        assert_eq!(
                            (a as i128 * x as i128).rem_euclid(m as i128),
                            (b as i128).rem_euclid(m as i128)
                        );
                    }
                    None => assert!(m == 1 || reference_gcd(a as i128, m as i128) != 1),
                }
            }
        }
    }
}

#[test]
fn congruence_of_small_values() {
    for m in 1..40i64 {
        for a in -45..45i64 {
            for b in -45..45i64 {
                match solve_linear_congruence(a, b, m) {
                    Some(x) => {
                        assert!(0 <= x && x < m);
                        assert_eq!(modulo(a * x, m), modulo(b, m));
                    }
                    None => assert!(m == 1 || reference_gcd(a as i128, m as i128) != 1),
                }
            }
        }
    }
}

#[test]
fn congruence_examples() {
    assert_eq!(solve_linear_congruence(8, 3, 7), Some(3));
    assert_eq!(solve_linear_congruence(3, 1, 11), Some(4));
    // 2x = 4 (mod 6) has the solutions 2 and 5, and is not served
    assert_eq!(solve_linear_congruence(2, 4, 6), None);
    assert_eq!(solve_linear_congruence(2, 3, 6), None);
    assert_eq!(solve_linear_congruence(5, 3, 1), None);
    // the product of the right-hand side and the inverse exceeds a word
    assert_eq!(solve_linear_congruence(i64::MAX - 1, i64::MIN, i64::MAX), Some(1));
}

#[test]
fn no_inverse_and_no_solution_below_modulus_one() {
    for m in [0i64, -1, -7, -255, i64::MIN] {
        for x in [-4i64, 0, 1, 4, 82] {
            assert_eq!(inv_modulo(x, m), 0);
            assert_eq!(solve_linear_congruence(x, 3, m), None);
        }
    }
}

#[test]
fn inverse_is_the_only_residue_that_leaves_one() {
    for m in 2..40i64 {
        for x in 0..m {
            let inv = inv_modulo(x, m);
            let leaving_one: Vec<i64> = (0..m).filter(|v| (x * v) % m == 1).collect();
            if inv != 0 {
                assert_eq!(leaving_one, vec![inv]);
            } else {
                assert!(leaving_one.is_empty());
            }
        }
    }
}
