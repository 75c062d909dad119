//! The Lucas-Lehmer test for Mersenne numbers.

use crate::bigint::{
    integer_equals, integer_from, integer_pow, integer_rem_euc, integer_sub, integer_value,
};
use crate::certificate::lemma_lucas_lehmer_decides;
use crate::trial_division::is_prime;
use vstd::arithmetic::div_mod::{lemma_mod_bound, lemma_small_mod};
use vstd::arithmetic::power::{lemma_pow_strictly_increases, lemma_pow1, lemma_square_is_pow2, pow};
use vstd::prelude::*;

verus! {

/// The Mersenne number with exponent `p`: two to the power `p`, less one.
pub open spec fn mersenne_number(p: nat) -> int {
    pow(2, p) - 1
}

/// The Lucas-Lehmer sequence modulo the Mersenne number with exponent `p`:
/// it starts at 4, and each term is the square of the one before, less two,
/// reduced to the range from zero up to the modulus.
pub open spec fn lucas_lehmer_residue(p: nat, k: nat) -> int
    decreases k,
{
    if k == 0 {
        4
    } else {
        let s = lucas_lehmer_residue(p, (k - 1) as nat);
        (s * s - 2) % mersenne_number(p)
    }
}

/// The verdict of the test for exponent `p`: whether the term reached after
/// `p - 2` steps is divisible by the Mersenne number. For `p` above 2 this
/// holds exactly when the Mersenne number is prime. For `p = 2` no step is
/// taken, the term is 4, and the verdict is `false` although 3 is prime.
pub open spec fn lucas_lehmer(p: nat) -> bool {
    lucas_lehmer_residue(p, (p - 2) as nat) % mersenne_number(p) == 0
}

/// A Mersenne number with exponent at least 2 is at least 3.
pub proof fn lemma_mersenne_number_bound(p: nat)
    requires
        p >= 2,
    ensures
        mersenne_number(p) >= 3,
{
    lemma_pow1(2);
    lemma_square_is_pow2(2);
    if p > 2 {
        lemma_pow_strictly_increases(2, 2, p);
    }
}

/// From the first step on, every term of the sequence lies between zero and
/// the Mersenne number: the remainder taken at each step is never negative,
/// also where the square less two is.
pub proof fn lemma_residue_in_range(p: nat, k: nat)
    requires
        p >= 2,
        k >= 1,
    ensures
        0 <= lucas_lehmer_residue(p, k) < mersenne_number(p),
{
    lemma_mersenne_number_bound(p);
    let s = lucas_lehmer_residue(p, (k - 1) as nat);
    lemma_mod_bound(s * s - 2, mersenne_number(p));
}

/// For an exponent above 2 the verdict is whether the last term is zero.
pub proof fn lemma_verdict_is_last_term(p: nat)
    requires
        p > 2,
    ensures
        lucas_lehmer(p) == (lucas_lehmer_residue(p, (p - 2) as nat) == 0),
{
    lemma_residue_in_range(p, (p - 2) as nat);
    lemma_small_mod(lucas_lehmer_residue(p, (p - 2) as nat) as nat, mersenne_number(p) as nat);
}

/// The test fails for the exponent 2, although the Mersenne number 3 is
/// prime: the sequence stays at its first term, and 4 leaves the remainder 1.
pub proof fn lemma_exponent_two_fails()
    ensures
        !lucas_lehmer(2),
{
    lemma_pow1(2);
    lemma_square_is_pow2(2);
    assert(mersenne_number(2) == 3);
}

/// Runs the Lucas-Lehmer test on the exponent `p`: starting from 4, it
/// squares, takes two away and reduces modulo the Mersenne number `p - 2`
/// times over, and says whether what is left is divisible by that number.
/// For every exponent above 2 the answer is whether the Mersenne number is
/// prime; for the exponent 2 it is `false`, although 3 is prime.
pub fn test_mersenne(p: u32) -> (r: bool)
    requires
        p >= 2,
    ensures
        r == lucas_lehmer(p as nat),
        p > 2 ==> r == is_prime(mersenne_number(p as nat)),
        p == 2 ==> !r,
{
    let m = integer_sub(integer_pow(integer_from(2), p), 1);
    proof {
        lemma_mersenne_number_bound(p as nat);
        if p > 2 {
            lemma_lucas_lehmer_decides(p as nat);
        } else {
            lemma_exponent_two_fails();
        }
    }
    let mut l = integer_from(4);
    let mut k: u32 = 0;
    while k < p - 2
        invariant
            p >= 2,
            k <= p - 2,
            integer_value(m) == mersenne_number(p as nat),
            integer_value(m) >= 3,
            integer_value(l) == lucas_lehmer_residue(p as nat, k as nat),
        decreases p - k,
    {
        proof {
            lemma_square_is_pow2(integer_value(l));
        }
        l = integer_rem_euc(integer_sub(integer_pow(l, 2), 2), &m);
        k += 1;
    }
    let last = integer_rem_euc(l, &m);
    integer_equals(&last, 0)
}

} // verus!
