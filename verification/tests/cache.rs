use mersenne::cache::{parse_candidates, parse_number, push_decimal, serialize_candidates};
use mersenne::candidates::generate_primes;

#[test]
fn cache_holds_one_exponent_per_line() {
    assert_eq!(serialize_candidates(&vec![2, 3, 5, 7, 11]), b"2\n3\n5\n7\n11".to_vec());
    assert_eq!(serialize_candidates(&vec![7]), b"7".to_vec());
    assert_eq!(serialize_candidates(&Vec::new()), Vec::<u8>::new());
}

#[test]
fn decimal_digits() {
    let mut out = b"p=".to_vec();
    push_decimal(&mut out, 0);
    assert_eq!(out, b"p=0".to_vec());
    push_decimal(&mut out, 10);
    assert_eq!(out, b"p=010".to_vec());
    push_decimal(&mut out, 4294967295);
    assert_eq!(out, b"p=0104294967295".to_vec());
    let mut out = Vec::new();
    push_decimal(&mut out, 24999983);
    assert_eq!(out, b"24999983".to_vec());
}

#[test]
fn cache_is_read_back() {
    assert_eq!(parse_candidates(b"2\n3\n5\n7\n11"), Some(vec![2, 3, 5, 7, 11]));
}

#[test]
fn any_run_of_separators_separates() {
    let text = b"  2 \t3\r\n5\n\n7\x0b11\x0c13 \n";
    assert_eq!(parse_candidates(text), Some(vec![2, 3, 5, 7, 11, 13]));
    assert_eq!(parse_candidates(b""), Some(vec![]));
    assert_eq!(parse_candidates(b" \n\t"), Some(vec![]));
}

#[test]
fn leading_zeros_are_read() {
    assert_eq!(parse_candidates(b"007 0 00"), Some(vec![7, 0, 0]));
}

#[test]
fn anything_but_digits_and_separators_is_refused() {
    assert_eq!(parse_candidates(b"2 3 x"), None);
    assert_eq!(parse_candidates(b"2,3"), None);
    assert_eq!(parse_candidates(b"-2"), None);
    assert_eq!(parse_candidates(b"2.5"), None);
    assert_eq!(parse_candidates(b"12a 5"), None);
    assert_eq!(parse_candidates(b"a12"), None);
    assert_eq!(parse_candidates(b"5\0"), None);
}

#[test]
fn numbers_beyond_32_bits_are_refused() {
    assert_eq!(parse_candidates(b"4294967295"), Some(vec![4294967295]));
    assert_eq!(parse_candidates(b"4294967296"), None);
    assert_eq!(parse_candidates(b"4294967300"), None);
    assert_eq!(parse_candidates(b"42949672950"), None);
    assert_eq!(parse_candidates(b"99999999999999999999"), None);
    assert_eq!(parse_candidates(b"3 4294967296 5"), None);
}

#[test]
fn reading_inverts_writing() {
    let primes = generate_primes(3000, 4);
    assert_eq!(parse_candidates(&serialize_candidates(&primes)), Some(primes));
    let any = vec![0, 4294967295, 10, 9, 100, 0];
    assert_eq!(parse_candidates(&serialize_candidates(&any)), Some(any));
}

#[test]
fn two_runs_write_the_same_cache() {
    let first = serialize_candidates(&generate_primes(1000, 8));
    let second = serialize_candidates(&generate_primes(1000, 8));
    let third = serialize_candidates(&generate_primes(1000, 3));
    assert_eq!(first, second);
    assert_eq!(first, third);
    assert!(first.starts_with(b"2\n3\n5\n7\n"));
    assert!(first.ends_with(b"\n991\n997"));
}

#[test]
fn a_line_of_input_holds_one_number() {
    assert_eq!(parse_number(b"11\n"), Some(11));
    assert_eq!(parse_number(b"  86243 \r\n"), Some(86243));
    assert_eq!(parse_number(b"0"), Some(0));
}

#[test]
fn input_that_is_not_one_number_is_refused() {
    assert_eq!(parse_number(b""), None);
    assert_eq!(parse_number(b"\n"), None);
    assert_eq!(parse_number(b"11 13"), None);
    assert_eq!(parse_number(b"eleven"), None);
    assert_eq!(parse_number(b"-1"), None);
    assert_eq!(parse_number(b"4294967296"), None);
}
