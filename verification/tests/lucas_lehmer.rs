use mersenne::lucas_lehmer::test_mersenne;
use mersenne::trial_division::prime_sieve;

#[test]
fn known_mersenne_exponents_pass() {
    for p in [3u32, 5, 7, 13, 17, 19, 31] {
        assert!(test_mersenne(p), "2^{}-1 is prime", p);
    }
}

#[test]
fn prime_exponents_of_composite_mersenne_numbers_fail() {
    for p in [11u32, 23, 29] {
        assert!(!test_mersenne(p), "2^{}-1 is composite", p);
    }
}

#[test]
fn exponent_two_is_reported_composite() {
    assert!(!test_mersenne(2));
}

#[test]
fn the_test_agrees_with_trial_division_on_the_mersenne_number() {
    for p in 3u32..=31 {
        let mersenne = ((1u64 << p) - 1) as u32;
        assert_eq!(test_mersenne(p), prime_sieve(mersenne), "at exponent {}", p);
    }
}

#[test]
fn composite_exponents_fail() {
    for p in [4u32, 6, 8, 9, 10, 12, 15, 21, 25, 27, 33, 35, 49] {
        assert!(!test_mersenne(p), "2^{}-1 is composite", p);
    }
}

#[test]
fn larger_mersenne_exponents() {
    for p in [61u32, 89, 107, 127, 521, 607, 1279] {
        assert!(test_mersenne(p), "2^{}-1 is prime", p);
    }
    for p in [37u32, 41, 43, 47, 53, 59, 67, 71, 73, 79, 83, 97, 101, 103, 109, 113, 131, 523] {
        assert!(!test_mersenne(p), "2^{}-1 is composite", p);
    }
}
