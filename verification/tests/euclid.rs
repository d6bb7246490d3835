use numbers::extended_gcd;

fn reference_gcd(a: i128, b: i128) -> i128 {
    let (mut x, mut y) = (a.abs(), b.abs());
    while y != 0 {
        let r = x % y;
        x = y;
        y = r;
    }
    x
}

fn check(a: i64, b: i64) {
    let (s, t, g) = extended_gcd(a, b);
    assert_eq!(a as i128 * s as i128 + b as i128 * t as i128, g as i128, "a={a} b={b}");
    assert_eq!((g as i128).abs(), reference_gcd(a as i128, b as i128), "a={a} b={b}");
    if a >= 0 && b >= 0 {
        assert!(g >= 0);
    }
}

#[test]
fn bezout_identity_on_small_values() {
    for a in -60..60i64 {
        for b in -60..60i64 {
            check(a, b);
        }
    }
}

#[test]
fn bezout_identity_on_wide_values() {
    let samples = [
        i64::MIN,
        i64::MIN + 1,
        -6_557_470_319_842,
        -4_294_967_296,
        -3,
        -1,
        0,
        1,
        2,
        3,
        4_294_967_297,
        6_557_470_319_842,
        4_052_739_537_881,
        i64::MAX - 1,
        i64::MAX,
    ];
    for &a in samples.iter() {
        for &b in samples.iter() {
            check(a, b);
        }
    }
}

#[test]
fn bezout_examples() {
    assert_eq!(extended_gcd(3, 11), (4, -1, 1));
    assert_eq!(extended_gcd(240, 46), (-9, 47, 2));
    assert_eq!(extended_gcd(12, 18), (-1, 1, 6));
}

#[test]
fn bezout_with_a_zero() {
    assert_eq!(extended_gcd(0, 0), (1, 0, 0));
    assert_eq!(extended_gcd(7, 0), (1, 0, 7));
    assert_eq!(extended_gcd(0, 7), (0, 1, 7));
    assert_eq!(extended_gcd(-7, 0), (1, 0, -7));
    assert_eq!(extended_gcd(0, -7), (0, 1, -7));
}

#[test]
fn bezout_sign_follows_the_recurrence() {
    // remainders: -12, 18, -12, 6, 0
    assert_eq!(extended_gcd(-12, 18), (1, 1, 6));
    // remainders: 12, -18, 12, -6, 0
    assert_eq!(extended_gcd(12, -18), (1, 1, -6));
    // remainders: -12, -18, -12, -6, 0
    assert_eq!(extended_gcd(-12, -18), (-1, 1, -6));
}

#[test]
fn bezout_at_the_edge_of_the_word() {
    assert_eq!(extended_gcd(i64::MIN, -1), (0, 1, -1));
    assert_eq!(extended_gcd(i64::MIN, i64::MIN), (0, 1, i64::MIN));
    assert_eq!(extended_gcd(i64::MIN, 0), (1, 0, i64::MIN));
    assert_eq!(extended_gcd(i64::MAX, i64::MAX), (0, 1, i64::MAX));
}
