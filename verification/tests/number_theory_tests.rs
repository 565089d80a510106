use number_theory::arithmetic::integer_sqrt;
use number_theory::getters::get_divisors;
use number_theory::validaters::is_abundant_number;
use number_theory::validaters::is_composite;
use number_theory::validaters::is_deficient_number;
use number_theory::validaters::is_mersenne_number;
use number_theory::validaters::is_perfect_number;
use number_theory::validaters::is_prime;

#[test]
fn integer_sqrt_test() {
    assert!(integer_sqrt(4) == 2);
    assert!(integer_sqrt(9) == 3);
    assert!(integer_sqrt(23) == 4);
}

#[test]
fn mersenne_test() {
    assert!(is_mersenne_number(127));
    assert!(is_mersenne_number(255));
    assert!(is_mersenne_number(511));
    assert!(!is_mersenne_number(259));
    assert!(!is_mersenne_number(117));
}

#[test]
fn primality_test() {
    assert!(is_prime(2));
    assert!(is_prime(7));
    assert!(is_prime(107));
    assert!(is_prime(7919));
}

#[test]
fn perfect_test() {
    assert!(is_perfect_number(6));
    assert!(!is_perfect_number(9));
    assert!(is_perfect_number(28));
}

#[test]
fn abundant_test() {
    assert!(!is_abundant_number(6));
    assert!(is_abundant_number(12));
    assert!(!is_abundant_number(28));
}

#[test]
fn deficient_test() {
    assert!(!is_deficient_number(6));
    assert!(is_deficient_number(9));
    assert!(is_deficient_number(16));
    assert!(!is_deficient_number(28));
}

#[test]
fn composite_test() {
    assert!(!is_composite(2));
    assert!(!is_composite(7));
    assert!(!is_composite(107));
    assert!(!is_composite(7919));
    assert!(is_composite(28));
    assert!(is_composite(128));
    assert!(is_composite(243));
    assert!(is_composite(2401));
}

#[test]
fn integer_sqrt_small_and_exact_squares() {
    assert_eq!(integer_sqrt(0), 0);
    assert_eq!(integer_sqrt(1), 1);
    assert_eq!(integer_sqrt(2), 1);
    assert_eq!(integer_sqrt(3), 1);
    assert_eq!(integer_sqrt(15), 3);
    assert_eq!(integer_sqrt(16), 4);
    assert_eq!(integer_sqrt(17), 4);
}

#[test]
fn integer_sqrt_bracket_holds_over_a_range() {
    for n in 0u128..2000 {
        let r = integer_sqrt(n);
        assert!(r * r <= n);
        assert!(n < (r + 1) * (r + 1));
    }
}

#[test]
fn integer_sqrt_large_inputs() {
    assert_eq!(integer_sqrt(1u128 << 64), 1u128 << 32);
    assert_eq!(integer_sqrt(u128::MAX), (1u128 << 64) - 1);
}

#[test]
fn divisors_of_small_numbers() {
    assert_eq!(get_divisors(1), vec![1]);
    assert_eq!(get_divisors(7), vec![1, 7]);
    assert_eq!(get_divisors(12), vec![1, 2, 3, 4, 6, 12]);
    assert_eq!(get_divisors(28), vec![1, 2, 4, 7, 14, 28]);
}

#[test]
fn divisors_divide_sorted_with_one_and_n_at_the_ends() {
    for n in 1u128..200 {
        let divisors = get_divisors(n);
        assert!(!divisors.is_empty());
        assert_eq!(divisors[0], 1);
        assert_eq!(*divisors.last().unwrap(), n);
        for &d in &divisors {
            assert_eq!(n % d, 0);
        }
        for pair in divisors.windows(2) {
            assert!(pair[0] < pair[1]);
        }
    }
}

#[test]
fn primality_rejects_zero_one_and_evens() {
    assert!(!is_prime(0));
    assert!(!is_prime(1));
    for n in 2u128..500 {
        if n > 2 && n % 2 == 0 {
            assert!(!is_prime(n));
        }
    }
}

#[test]
fn primality_rejects_perfect_square_composites() {
    assert!(!is_prime(4));
    assert!(!is_prime(9));
    assert!(!is_prime(25));
    assert!(!is_prime(49));
    assert!(is_prime(3));
    assert!(is_prime(5));
}

#[test]
fn mersenne_edge_values() {
    assert!(is_mersenne_number(0));
    assert!(is_mersenne_number(1));
    assert!(is_mersenne_number(3));
    assert!(!is_mersenne_number(2));
    assert!(!is_mersenne_number(4));
    assert!(is_mersenne_number((1u128 << 127) - 1));
}

#[test]
fn exactly_one_classification_for_each_positive_number() {
    for n in 1u128..500 {
        let perfect = is_perfect_number(n);
        let deficient = is_deficient_number(n);
        let abundant = is_abundant_number(n);
        let count = perfect as u32 + deficient as u32 + abundant as u32;
        assert_eq!(count, 1);
    }
}

#[test]
fn one_is_deficient() {
    assert!(is_deficient_number(1));
    assert!(!is_perfect_number(1));
    assert!(!is_abundant_number(1));
}
