use numbers::{
    extended_gcd, integer_square_root, inv_modulo, is_prime, modulo, power_mod,
    solve_linear_congruence,
};

#[test]
fn test_modulo() {
    assert_eq!(6, modulo(-2, 8));
    assert_eq!(6, modulo(6, 11));
}

#[test]
fn test_extended_gcd() {
    for a in 1..11 {
        let (s, t, gcd) = extended_gcd(a, 11);
        assert_eq!(1, gcd);
        assert_eq!(a * s + 11 * t, gcd);
    }
}

#[test]
fn test_inv_modulo() {
    let mut inv_x = inv_modulo(4, 7);
    assert_eq!(1, modulo(4 * inv_x, 7));
    assert_eq!(0, inv_modulo(4, 8));
    inv_x = inv_modulo(-4, 11);
    assert_eq!(1, modulo(-4 * inv_x, 11));
    inv_x = inv_modulo(-82, 255);
    assert_eq!(1, modulo(-82 * inv_x, 255));
}

#[test]
fn test_power_modulo() {
    assert_eq!(Some(6), power_mod(2, 5, 13));
    assert_eq!(Some(3), power_mod(101, 100, 13));
}

#[test]
fn test_solve_linear_congruence() {
    assert_eq!(None, solve_linear_congruence(8, 3, 4));
    assert_eq!(Some(3), solve_linear_congruence(8, 3, 7));
    assert_eq!(3, solve_linear_congruence(100, 13, 7).unwrap());
}

#[test]
fn test_is_prime() {
    assert_eq!(true, is_prime(2));
    assert_eq!(true, is_prime(104729));
    assert_eq!(true, is_prime(45691));
    assert_eq!(false, is_prime(8));
    assert_eq!(false, is_prime(104724));
    assert_eq!(false, is_prime(3 * 104729));
    assert_eq!(false, is_prime(104729 * 104729));
    assert_eq!(false, is_prime(104730 * 104730));
    assert_eq!(true, is_prime(10970467603));
    assert_eq!(true, is_prime(314173));
}

#[test]
fn test_integer_squareroot() {
    assert_eq!(4, integer_square_root(16));
    assert_eq!(4, integer_square_root(17));
    assert_eq!(4, integer_square_root(18));
    assert_eq!(5, integer_square_root(25));
}
