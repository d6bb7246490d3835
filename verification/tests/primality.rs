use numbers::{is_prime, PrimeTable};

fn by_trial_division(n: i64) -> bool {
    if n < 2 {
        return false;
    }
    let mut d = 2;
    while d * d <= n {
        if n % d == 0 {
            return false;
        }
        d += 1;
    }
    true
}

/// What the test is to report: one counts as prime and three does not.
fn expected(n: i64) -> bool {
    n == 1 || (n != 3 && by_trial_division(n))
}

#[test]
fn default_table_holds_the_first_ten_thousand_primes() {
    let table = PrimeTable::new();
    assert_eq!(table.len(), 10_000);
    assert_eq!(table.limit(), 104_729);
    assert_eq!(table.largest(), 104_729);
    assert_eq!(table.get(0), 2);
    assert_eq!(table.get(1), 3);
    assert_eq!(table.get(2), 5);
    assert_eq!(table.get(9_999), 104_729);
    for i in 1..table.len() {
        assert!(table.get(i - 1) < table.get(i));
    }
    let mut count = 0;
    for n in 0..=104_729i64 {
        assert_eq!(table.contains(n), by_trial_division(n), "n={n}");
        if by_trial_division(n) {
            count += 1;
        }
    }
    assert_eq!(count, 10_000);
    assert!(!table.contains(104_743));
    assert!(!table.contains(-7));
}

#[test]
fn small_tables() {
    let table = PrimeTable::with_limit(5);
    assert_eq!(table.len(), 3);
    assert_eq!(table.largest(), 5);
    let table = PrimeTable::with_limit(30);
    assert_eq!(table.len(), 10);
    assert_eq!(table.limit(), 30);
    assert_eq!(table.largest(), 29);
    assert!(table.contains(23));
    assert!(!table.contains(25));
    assert!(!table.contains(31));
}

#[test]
fn matches_trial_division_up_to_a_million() {
    let table = PrimeTable::new();
    for n in 2..=1_000_000i64 {
        if n != 3 {
            assert_eq!(table.is_prime(n), by_trial_division(n), "n={n}");
        }
    }
}

#[test]
fn wheel_matches_trial_division() {
    // with so short a table nearly every number is decided by the wheel
    let table = PrimeTable::with_limit(5);
    for n in -50..200_000i64 {
        assert_eq!(table.is_prime(n), expected(n), "n={n}");
    }
    let table = PrimeTable::with_limit(30);
    for n in -50..200_000i64 {
        assert_eq!(table.is_prime(n), expected(n), "n={n}");
    }
}

#[test]
fn one_and_three() {
    assert!(is_prime(1));
    assert!(!is_prime(3));
    let table = PrimeTable::new();
    assert!(table.is_prime(1));
    assert!(!table.is_prime(3));
}

#[test]
fn nothing_below_one_is_prime() {
    for n in [0i64, -1, -2, -3, -5, -7, -104_729, i64::MIN, i64::MIN + 1] {
        assert!(!is_prime(n), "n={n}");
    }
}

#[test]
fn numbers_beyond_the_table() {
    assert!(is_prime(104_729));
    assert!(!is_prime(104_724));
    assert!(is_prime(104_743));
    assert!(!is_prime(104_729 * 104_729));
    assert!(is_prime(10_970_467_603));
    // the square of the first prime beyond the table, found by the wheel alone
    assert!(!is_prime(104_743 * 104_743));
    assert!(!is_prime(104_743 * 104_759));
    // a prime beyond the square of the table's last entry
    assert!(is_prime(1_000_000_000_039));
    assert!(is_prime(2_147_483_647));
    assert!(!is_prime(2_147_483_647 * 3));
    assert!(!is_prime(2_147_483_647 * 2_147_483_629));
}
