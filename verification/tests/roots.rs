use numbers::integer_square_root;

fn check(n: i64) {
    let r = integer_square_root(n) as i128;
    assert!(r >= 0);
    assert!(r * r <= n as i128, "n={n} r={r}");
    assert!((n as i128) < (r + 1) * (r + 1), "n={n} r={r}");
}

#[test]
fn square_root_brackets_small_values() {
    for n in 0..200_000i64 {
        check(n);
    }
}

#[test]
fn square_root_brackets_wide_values() {
    let mut n: i64 = 1;
    for _ in 0..62 {
        n *= 2;
        check(n - 1);
        check(n);
        check(n + 1);
    }
    check(i64::MAX);
    check(i64::MAX - 1);
    check(1 << 62);
    check((1 << 62) - 1);
}

#[test]
fn square_root_around_squares() {
    for r in [1i64, 2, 3, 255, 256, 65_535, 65_536, 2_147_483_647, 3_037_000_499] {
        assert_eq!(integer_square_root(r * r), r);
        assert_eq!(integer_square_root(r * r - 1), r - 1);
        assert_eq!(integer_square_root(r * r + 1), r);
    }
}

#[test]
fn square_root_examples() {
    assert_eq!(integer_square_root(0), 0);
    assert_eq!(integer_square_root(1), 1);
    assert_eq!(integer_square_root(3), 1);
    assert_eq!(integer_square_root(18), 4);
    assert_eq!(integer_square_root(25), 5);
    assert_eq!(integer_square_root(i64::MAX), 3_037_000_499);
    assert_eq!(integer_square_root(1 << 62), 1 << 31);
}
