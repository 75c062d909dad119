//! Search for Mersenne primes: candidate exponents by trial division, the
//! Lucas-Lehmer test on arbitrary-precision integers, and the protocol by
//! which a pool of workers shares the candidates and stops on the first hit.

pub mod bigint;
pub mod cache;
pub mod candidates;
pub mod certificate;
pub mod divisibility;
pub mod lucas_lehmer;
pub mod search;
pub mod signal;
pub mod surd;
pub mod trial_division;
pub mod work_queue;
pub mod worker;
