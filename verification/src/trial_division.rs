//! Trial division by odd numbers, and what it says about primality.

use vstd::arithmetic::div_mod::{lemma_fundamental_div_mod, lemma_mod_multiples_basic};
use vstd::prelude::*;

verus! {

/// Whether `r` is the integer square root of `n`: the largest number whose
/// square does not exceed `n`.
pub open spec fn is_integer_sqrt(r: int, n: int) -> bool {
    0 <= r && r * r <= n && n < (r + 1) * (r + 1)
}

/// Whether `a` is one of the trial divisors of `p`: an odd number from 3 up
/// to the integer square root of `p`.
pub open spec fn is_trial_divisor(a: int, p: int) -> bool {
    3 <= a && a % 2 == 1 && a * a <= p
}

/// Whether `p` survives trial division: it is odd and no trial divisor
/// divides it. Every even number fails, 2 included.
pub open spec fn passes_trial_division(p: int) -> bool {
    p % 2 != 0 && forall|a: int| is_trial_divisor(a, p) ==> #[trigger] (p % a) != 0
}

/// Whether `n` is a prime number: at least 2 and divisible by no number
/// strictly between 1 and itself.
pub open spec fn is_prime(n: int) -> bool {
    n >= 2 && forall|d: int| 2 <= d < n ==> #[trigger] (n % d) != 0
}

/// The integer square root of `n`, found by bisection.
pub fn integer_sqrt(n: u32) -> (r: u32)
    ensures
        is_integer_sqrt(r as int, n as int),
{
    let mut low: u64 = 0;
    let mut high: u64 = 65536;
    while high - low > 1
        invariant
            low < high <= 65536,
            low * low <= n,
            n < high * high,
        decreases high - low,
    {
        let mid: u64 = low + (high - low) / 2;
        assert(mid * mid <= 65536 * 65536) by (nonlinear_arith)
            requires
                mid <= 65536,
        ;
        if mid * mid <= n as u64 {
            low = mid;
        } else {
            high = mid;
        }
    }
    low as u32
}

/// The trial divisors of `p` are the odd numbers from 3 up to the integer
/// square root of `p`: a number's square does not exceed `p` exactly when
/// the number does not exceed the root.
pub proof fn lemma_trial_divisors_end_at_the_root(a: int, p: int, root: int)
    requires
        0 <= a,
        is_integer_sqrt(root, p),
    ensures
        a * a <= p <==> a <= root,
{
    if a <= root {
        assert(a * a <= root * root) by (nonlinear_arith)
            requires
                0 <= a <= root,
        ;
    } else {
        assert(a * a >= (root + 1) * (root + 1)) by (nonlinear_arith)
            requires
                0 <= root + 1 <= a,
        ;
    }
}

/// Trial division of `p` by the odd numbers from 3 up to its square root.
/// An odd `p` passes when none of them divides it; an even `p` never does,
/// not even 2. From 3 on the numbers that pass are the primes.
pub fn prime_sieve(p: u32) -> (r: bool)
    ensures
        r == passes_trial_division(p as int),
        p >= 3 ==> r == is_prime(p as int),
        p % 2 == 0 ==> !r,
{
    proof {
        if p >= 3 {
            lemma_trial_division_decides_primality(p as int);
        }
    }
    if p % 2 == 0 {
        return false;
    }
    let max = integer_sqrt(p);
    proof {
        lemma_trial_divisors_end_at_the_root(65536, p as int, max as int);
    }
    let mut a: u32 = 3;
    while a <= max
        invariant
            3 <= a,
            a % 2 == 1,
            p % 2 != 0,
            is_integer_sqrt(max as int, p as int),
            max < 65536,
            forall|b: int|
                is_trial_divisor(b, p as int) && b < a ==> #[trigger] (p as int % b) != 0,
        decreases max + 2 - a,
    {
        if p % a == 0 {
            proof {
                lemma_trial_divisors_end_at_the_root(a as int, p as int, max as int);
                if p >= 3 {
                    lemma_trial_division_decides_primality(p as int);
                }
            }
            return false;
        }
        a += 2;
    }
    proof {
        assert forall|b: int| is_trial_divisor(b, p as int) implies #[trigger] (p as int % b)
            != 0 by {
            lemma_trial_divisors_end_at_the_root(b, p as int, max as int);
        }
    }
    true
}

/// Trial division is a primality test on every number from 3 up: such a
/// number passes exactly when it is prime.
pub proof fn lemma_trial_division_decides_primality(p: int)
    requires
        p >= 3,
    ensures
        passes_trial_division(p) == is_prime(p),
{
    if is_prime(p) {
        assert(p % 2 != 0);
        assert forall|a: int| is_trial_divisor(a, p) implies #[trigger] (p % a) != 0 by {
            assert(a < p) by (nonlinear_arith)
                requires
                    3 <= a,
                    a * a <= p,
            ;
        }
    }
    if passes_trial_division(p) {
        assert forall|d: int| 2 <= d < p implies #[trigger] (p % d) != 0 by {
            if p % d == 0 {
                lemma_small_odd_divisor(p, d);
            }
        }
    }
}

/// An odd number with a proper divisor has a trial divisor that divides it.
proof fn lemma_small_odd_divisor(p: int, d: int)
    requires
        p >= 3,
        p % 2 != 0,
        2 <= d < p,
        p % d == 0,
    ensures
        exists|a: int| is_trial_divisor(a, p) && #[trigger] (p % a) == 0,
{
    let e = p / d;
    lemma_fundamental_div_mod(p, d);
    assert(p == d * e);
    assert(e >= 2) by (nonlinear_arith)
        requires
            p == d * e,
            2 <= d < p,
    ;
    let a = if d <= e { d } else { e };
    let b = if d <= e { e } else { d };
    assert(p == a * b) by (nonlinear_arith)
        requires
            p == d * e,
            (a == d && b == e) || (a == e && b == d),
    ;
    assert(a * a <= p) by (nonlinear_arith)
        requires
            p == a * b,
            2 <= a <= b,
    ;
    assert(p % a == 0) by {
        lemma_mod_multiples_basic(b, a);
        assert(b * a == a * b) by (nonlinear_arith);
    }
    if a % 2 == 0 {
        let h = a / 2;
        assert(p == (h * b) * 2) by (nonlinear_arith)
            requires
                p == a * b,
                a == 2 * h,
        ;
        lemma_mod_multiples_basic(h * b, 2);
        assert(false);
    }
    assert(is_trial_divisor(a, p));
}

} // verus!
