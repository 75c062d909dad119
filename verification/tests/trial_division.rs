use mersenne::trial_division::{integer_sqrt, prime_sieve};

#[test]
fn odd_primes_pass_trial_division() {
    for p in [3u32, 5, 7, 11, 13, 17, 19, 23, 29, 31, 97, 7919, 65537] {
        assert!(prime_sieve(p), "{} is prime", p);
    }
}

#[test]
fn odd_composites_fail_trial_division() {
    for p in [9u32, 15, 21, 25, 27, 33, 35, 49, 121, 169, 7917, 65535] {
        assert!(!prime_sieve(p), "{} is composite", p);
    }
}

#[test]
fn even_numbers_fail_trial_division() {
    for p in [0u32, 2, 4, 6, 8, 100, 4294967294] {
        assert!(!prime_sieve(p), "{} is even", p);
    }
}

#[test]
fn two_is_rejected_although_prime() {
    assert!(!prime_sieve(2));
}

#[test]
fn one_has_no_trial_divisor() {
    assert!(prime_sieve(1));
}

#[test]
fn squares_of_primes_are_caught_at_the_root() {
    assert!(!prime_sieve(9));
    assert!(!prime_sieve(25));
    assert!(!prime_sieve(49));
    assert!(!prime_sieve(65521 * 65521));
}

#[test]
fn trial_division_at_the_top_of_the_range() {
    assert!(prime_sieve(4294967291));
    assert!(!prime_sieve(4294967295));
    assert!(!prime_sieve(4294967293));
}

#[test]
fn trial_division_agrees_with_counting_divisors() {
    for x in (3u32..2000).step_by(2) {
        let mut divisor_found = false;
        let mut d = 3u32;
        while d * d <= x {
            if x % d == 0 {
                divisor_found = true;
            }
            d += 2;
        }
        assert_eq!(prime_sieve(x), !divisor_found, "at {}", x);
    }
}

#[test]
fn integer_square_roots() {
    assert_eq!(integer_sqrt(0), 0);
    assert_eq!(integer_sqrt(1), 1);
    assert_eq!(integer_sqrt(2), 1);
    assert_eq!(integer_sqrt(3), 1);
    assert_eq!(integer_sqrt(4), 2);
    assert_eq!(integer_sqrt(8), 2);
    assert_eq!(integer_sqrt(9), 3);
    assert_eq!(integer_sqrt(24), 4);
    assert_eq!(integer_sqrt(25), 5);
    assert_eq!(integer_sqrt(25_000_000), 5000);
    assert_eq!(integer_sqrt(4294836224), 65534);
    assert_eq!(integer_sqrt(4294836225), 65535);
    assert_eq!(integer_sqrt(4294967295), 65535);
}
