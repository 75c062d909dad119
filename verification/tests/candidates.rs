use mersenne::candidates::{
    collect_candidates, generate_primes, sieve_partition, CACHE_BOUND, DEFAULT_WORKERS,
};

#[test]
fn candidates_below_thirty() {
    assert_eq!(generate_primes(30, 1), vec![2, 3, 5, 7, 11, 13, 17, 19, 23, 29]);
}

#[test]
fn candidates_do_not_depend_on_the_number_of_workers() {
    let one = generate_primes(2000, 1);
    for workers in [2u32, 8, 17] {
        assert_eq!(generate_primes(2000, workers), one, "with {} workers", workers);
    }
    assert_eq!(one.len(), 303);
    assert_eq!(one[0], 2);
    assert_eq!(one[302], 1999);
}

#[test]
fn more_workers_than_numbers() {
    assert_eq!(generate_primes(10, 1000), vec![2, 3, 5, 7]);
}

#[test]
fn the_bound_itself_is_left_out() {
    assert_eq!(generate_primes(13, 3), vec![2, 3, 5, 7, 11]);
    assert_eq!(generate_primes(14, 3), vec![2, 3, 5, 7, 11, 13]);
}

#[test]
fn two_is_always_a_candidate() {
    assert_eq!(generate_primes(0, 1), vec![2]);
    assert_eq!(generate_primes(2, 4), vec![2]);
    assert_eq!(generate_primes(3, 4), vec![2]);
    assert_eq!(generate_primes(4, 4), vec![2, 3]);
}

#[test]
fn candidates_are_strictly_ascending() {
    let primes = generate_primes(5000, 7);
    for pair in primes.windows(2) {
        assert!(pair[0] < pair[1]);
    }
}

#[test]
fn each_worker_sieves_its_residue_class() {
    assert_eq!(sieve_partition(30, 3, 0), vec![3]);
    assert_eq!(sieve_partition(30, 3, 1), vec![7, 13, 19]);
    assert_eq!(sieve_partition(30, 3, 2), vec![5, 11, 17, 23, 29]);
    assert_eq!(sieve_partition(30, 2, 0), Vec::<u32>::new());
    assert_eq!(sieve_partition(30, 2, 1), vec![3, 5, 7, 11, 13, 17, 19, 23, 29]);
}

#[test]
fn a_worker_beyond_the_pool_has_no_share() {
    assert_eq!(sieve_partition(30, 3, 3), Vec::<u32>::new());
    assert_eq!(sieve_partition(30, 3, 7), Vec::<u32>::new());
}

#[test]
fn collecting_sorts_whatever_order_the_hits_arrive_in() {
    let parts = vec![vec![7, 13, 19], vec![5, 11, 17, 23, 29], vec![3]];
    assert_eq!(collect_candidates(&parts), vec![2, 3, 5, 7, 11, 13, 17, 19, 23, 29]);
    let parts = vec![vec![7, 3], vec![], vec![5]];
    assert_eq!(collect_candidates(&parts), vec![2, 3, 5, 7]);
}

#[test]
fn collecting_keeps_every_hit() {
    let parts = vec![vec![5, 5], vec![3, 5]];
    assert_eq!(collect_candidates(&parts), vec![2, 3, 5, 5, 5]);
    assert_eq!(collect_candidates(&Vec::new()), vec![2]);
}

#[test]
fn collected_shares_are_the_candidate_set() {
    let workers = 5;
    let mut parts = Vec::new();
    for index in (0..workers).rev() {
        parts.push(sieve_partition(500, workers, index));
    }
    assert_eq!(collect_candidates(&parts), generate_primes(500, 1));
}

#[test]
fn defaults() {
    assert_eq!(DEFAULT_WORKERS, 8);
    assert_eq!(CACHE_BOUND, 25_000_000);
}
