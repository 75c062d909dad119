//! Divisibility: multiples, prime factors, binomial coefficients, and the
//! counting argument that bounds a set by what it fits into.

use crate::trial_division::is_prime;
use vstd::arithmetic::div_mod::{
    lemma_fundamental_div_mod, lemma_mod_bound, lemma_mod_multiples_basic, lemma_small_mod,
};
use vstd::arithmetic::power::{lemma_pow0, lemma_pow1, lemma_pow_adds, pow};
use vstd::prelude::*;
use vstd::relations::injective_on;
use vstd::set_lib::{lemma_int_range, lemma_len_subset, lemma_map_size, set_int_range};

verus! {

/// A sum of multiples of `q`, each times anything, is a multiple of `q`.
pub proof fn lemma_combination_is_multiple(q: int, u: int, c: int, v: int, d: int)
    requires
        q > 0,
        u % q == 0,
        v % q == 0,
    ensures
        (u * c + v * d) % q == 0,
{
    lemma_fundamental_div_mod(u, q);
    lemma_fundamental_div_mod(v, q);
    let h = u / q;
    let k = v / q;
    assert(u * c + v * d == (h * c + k * d) * q) by (nonlinear_arith)
        requires
            u == q * h,
            v == q * k,
    ;
    lemma_mod_multiples_basic(h * c + k * d, q);
}

/// A number that divides a divisor of `n` divides `n`.
pub proof fn lemma_divides_transitive(e: int, q: int, n: int)
    requires
        e > 0,
        q > 0,
        q % e == 0,
        n % q == 0,
    ensures
        n % e == 0,
{
    lemma_fundamental_div_mod(q, e);
    lemma_fundamental_div_mod(n, q);
    let h = q / e;
    let k = n / q;
    assert(n == (h * k) * e) by (nonlinear_arith)
        requires
            q == e * h,
            n == q * k,
    ;
    lemma_mod_multiples_basic(h * k, e);
}

/// Among the divisors of `n` from `from` on there is a least one.
pub proof fn lemma_least_divisor(n: int, from: int) -> (q: int)
    requires
        2 <= from < n,
        forall|d: int| 2 <= d < from ==> #[trigger] (n % d) != 0,
        exists|d: int| from <= d < n && #[trigger] (n % d) == 0,
    ensures
        from <= q < n,
        n % q == 0,
        forall|d: int| 2 <= d < q ==> #[trigger] (n % d) != 0,
    decreases n - from,
{
    if n % from == 0 {
        from
    } else {
        let d = choose|d: int| from <= d < n && #[trigger] (n % d) == 0;
        assert(from + 1 <= d < n && n % d == 0);
        lemma_least_divisor(n, from + 1)
    }
}

/// A composite number has a prime factor whose square does not exceed it.
pub proof fn lemma_small_prime_factor(n: int) -> (q: int)
    requires
        n >= 2,
        !is_prime(n),
    ensures
        is_prime(q),
        n % q == 0,
        q * q <= n,
{
    let d = choose|d: int| 2 <= d < n && #[trigger] (n % d) == 0;
    assert(2 <= d < n && n % d == 0);
    let q = lemma_least_divisor(n, 2);
    assert forall|e: int| 2 <= e < q implies #[trigger] (q % e) != 0 by {
        if q % e == 0 {
            lemma_divides_transitive(e, q, n);
        }
    }
    lemma_fundamental_div_mod(n, q);
    let k = n / q;
    assert(2 <= k < n) by (nonlinear_arith)
        requires
            n == q * k,
            2 <= q < n,
    ;
    lemma_mod_multiples_basic(q, k);
    assert(q * k == k * q) by (nonlinear_arith);
    assert(n % k == 0);
    assert(k >= q);
    assert(q * q <= n) by (nonlinear_arith)
        requires
            n == q * k,
            2 <= q <= k,
    ;
    q
}

/// Every positive number is a power of two times an odd number.
pub proof fn lemma_odd_part(d: nat) -> (r: (nat, nat))
    requires
        d > 0,
    ensures
        d == pow(2, r.0) * r.1,
        r.1 % 2 == 1,
    decreases d,
{
    if d % 2 == 1 {
        lemma_pow0(2);
        (0, d)
    } else {
        let half = lemma_odd_part(d / 2);
        lemma_pow_adds(2, half.0, 1);
        lemma_pow1(2);
        assert(pow(2, half.0) * 2 * half.1 == 2 * (pow(2, half.0) * half.1)) by (nonlinear_arith);
        (half.0 + 1, half.1)
    }
}

/// A function that sends the numbers below `n` to different numbers below
/// `m` shows that `n` does not exceed `m`.
pub proof fn lemma_pigeonhole(f: spec_fn(int) -> int, n: int, m: int)
    requires
        0 <= n,
        0 <= m,
        forall|i: int| 0 <= i < n ==> 0 <= #[trigger] f(i) < m,
        forall|i: int, j: int| 0 <= i < j < n ==> #[trigger] f(i) != #[trigger] f(j),
    ensures
        n <= m,
{
    let domain = set_int_range(0, n);
    let image = domain.map(f);
    lemma_int_range(0, n);
    lemma_int_range(0, m);
    assert(injective_on(f, domain)) by {
        assert forall|i: int, j: int|
            domain.contains(i) && domain.contains(j) && #[trigger] f(i) == #[trigger] f(
                j,
            ) implies i == j by {
            if i < j {
                assert(f(i) != f(j));
            } else if j < i {
                assert(f(j) != f(i));
            }
        }
    }
    lemma_map_size(domain, image, f);
    assert(image.subset_of(set_int_range(0, m))) by {
        assert forall|y: int| image.contains(y) implies set_int_range(0, m).contains(y) by {
            let i = choose|i: int| domain.contains(i) && f(i) == y;
            assert(0 <= f(i) < m);
        }
    }
    lemma_len_subset(image, set_int_range(0, m));
}

/// An odd number that divides twice a number divides the number.
pub proof fn lemma_odd_divisor(q: int, a: int)
    requires
        q > 0,
        q % 2 == 1,
        (2 * a) % q == 0,
    ensures
        a % q == 0,
{
    lemma_fundamental_div_mod(2 * a, q);
    let c = (2 * a) / q;
    let h = q / 2;
    assert(a == (a - h * c) * q) by (nonlinear_arith)
        requires
            2 * a == q * c,
            q == 2 * h + 1,
    ;
    lemma_mod_multiples_basic(a - h * c, q);
}

/// Numbers that leave the same remainder differ by a multiple.
pub proof fn lemma_same_remainder(a: int, b: int, q: int)
    requires
        q > 0,
        a % q == b % q,
    ensures
        (a - b) % q == 0,
{
    lemma_fundamental_div_mod(a, q);
    lemma_fundamental_div_mod(b, q);
    assert(a - b == (a / q - b / q) * q) by (nonlinear_arith)
        requires
            a == q * (a / q) + a % q,
            b == q * (b / q) + b % q,
            a % q == b % q,
    ;
    lemma_mod_multiples_basic(a / q - b / q, q);
}

/// A prime that divides a product divides one of the factors.
pub proof fn lemma_prime_divides_factor(q: int, a: int, b: int)
    requires
        is_prime(q),
        (a * b) % q == 0,
    ensures
        a % q == 0 || b % q == 0,
{
    let k = a % q;
    lemma_mod_bound(a, q);
    lemma_fundamental_div_mod(a, q);
    if k != 0 {
        lemma_mod_multiples_basic(b, q);
        lemma_combination_is_multiple(q, a * b, 1, b * q, -(a / q));
        assert((a * b) * 1 + (b * q) * (-(a / q)) == k * b) by (nonlinear_arith)
            requires
                a == q * (a / q) + k,
        ;
        lemma_prime_divides_cofactor(q, k, b);
    }
}

/// A prime that divides the product of a positive number below itself and
/// another number divides the other.
pub proof fn lemma_prime_divides_cofactor(q: int, k: int, b: int)
    requires
        is_prime(q),
        0 < k < q,
        (k * b) % q == 0,
    ensures
        b % q == 0,
    decreases k,
{
    if k == 1 {
        assert(1 * b == b);
    } else {
        let r = q % k;
        let t = q / k;
        lemma_mod_bound(q, k);
        lemma_fundamental_div_mod(q, k);
        lemma_mod_multiples_basic(b, q);
        lemma_combination_is_multiple(q, b * q, 1, k * b, -t);
        assert((b * q) * 1 + (k * b) * (-t) == r * b) by (nonlinear_arith)
            requires
                q == k * t + r,
        ;
        lemma_prime_divides_cofactor(q, r, b);
    }
}

/// The number of ways to choose `k` things out of `n`.
pub open spec fn binomial(n: nat, k: nat) -> nat
    decreases n,
{
    if k == 0 {
        1
    } else if n == 0 {
        0
    } else {
        binomial((n - 1) as nat, (k - 1) as nat) + binomial((n - 1) as nat, k)
    }
}

/// There is no way to choose more than there is, and one way to choose all.
pub proof fn lemma_binomial_edge(n: nat, k: nat)
    ensures
        k > n ==> binomial(n, k) == 0,
        binomial(n, n) == 1,
    decreases n,
{
    if n > 0 {
        lemma_binomial_edge((n - 1) as nat, k);
        lemma_binomial_edge((n - 1) as nat, n);
        lemma_binomial_edge((n - 1) as nat, (n - 1) as nat);
        if k > 0 {
            lemma_binomial_edge((n - 1) as nat, (k - 1) as nat);
        }
    }
}

/// Choosing `k` out of `n` and marking one of the chosen is marking one of
/// the `n` and choosing the other `k - 1` out of the rest.
pub proof fn lemma_binomial_absorbs(n: nat, k: nat)
    requires
        n >= 1,
        k >= 1,
    ensures
        k * binomial(n, k) == n * binomial((n - 1) as nat, (k - 1) as nat),
    decreases n,
{
    let m = (n - 1) as nat;
    let j = (k - 1) as nat;
    if m == 0 {
        lemma_binomial_edge(0, k);
        if k > 1 {
            assert(binomial(0, j) == 0);
            assert(binomial(1, k) == 0);
            assert(k * 0 == 0 && n * 0 == 0) by (nonlinear_arith);
        } else {
            assert(binomial(1, 1) == 1);
            assert(binomial(0, 0) == 1);
        }
    } else {
        lemma_binomial_absorbs(m, k);
        let upper = binomial(m, k);
        let left = binomial(m, j);
        let below = binomial((m - 1) as nat, j);
        assert(k * upper == m * below);
        if j == 0 {
            assert(left == 1);
            assert(below == 1);
            assert(k * (left + upper) == n * left) by (nonlinear_arith)
                requires
                    k == 1,
                    left == 1,
                    k * upper == m * below,
                    below == 1,
                    n == m + 1,
            ;
        } else {
            lemma_binomial_absorbs(m, j);
            let corner = binomial((m - 1) as nat, (j - 1) as nat);
            assert(left == corner + below);
            assert(k * (left + upper) == n * left) by (nonlinear_arith)
                requires
                    k == j + 1,
                    n == m + 1,
                    j * left == m * corner,
                    k * upper == m * below,
                    left == corner + below,
            ;
        }
    }
}

/// A prime divides every number of ways to choose some but not all of as
/// many things as the prime says.
pub proof fn lemma_prime_divides_binomial(q: nat, k: nat)
    requires
        is_prime(q as int),
        0 < k < q,
    ensures
        binomial(q, k) % q == 0,
{
    lemma_binomial_absorbs(q, k);
    let c = binomial(q, k) as int;
    let d = binomial((q - 1) as nat, (k - 1) as nat) as int;
    lemma_mod_multiples_basic(d, q as int);
    assert(d * q == q * d) by (nonlinear_arith);
    lemma_prime_divides_factor(q as int, k as int, c);
    lemma_small_mod(k, q);
}

/// An even power of two is one more than a multiple of three.
pub proof fn lemma_even_power_of_two(j: nat)
    ensures
        (pow(2, 2 * j) - 1) % 3 == 0,
    decreases j,
{
    if j == 0 {
        lemma_pow0(2);
    } else {
        let i = (j - 1) as nat;
        lemma_even_power_of_two(i);
        lemma_pow_adds(2, 2 * i, 2);
        lemma_pow1(2);
        lemma_pow_adds(2, 1, 1);
        let a = pow(2, 2 * i);
        assert(pow(2, 2) == 4);
        lemma_mod_multiples_basic(1, 3);
        lemma_combination_is_multiple(3, a - 1, 4, 3, 1);
        assert((a - 1) * 4 + 3 * 1 == a * 4 - 1) by (nonlinear_arith);
    }
}

/// An odd power of the negative of a number is the negative of the power.
pub proof fn lemma_odd_power_of_negative(c: int, n: nat)
    requires
        n % 2 == 1,
    ensures
        pow(-c, n) == -pow(c, n),
    decreases n,
{
    lemma_pow1(c);
    lemma_pow1(-c);
    if n > 1 {
        let m = (n - 2) as nat;
        lemma_odd_power_of_negative(c, m);
        lemma_pow_adds(c, m, 2);
        lemma_pow_adds(-c, m, 2);
        lemma_pow_adds(c, 1, 1);
        lemma_pow_adds(-c, 1, 1);
        assert((-c) * (-c) == c * c) by (nonlinear_arith);
        assert((-pow(c, m)) * (c * c) == -(pow(c, m) * (c * c))) by (nonlinear_arith);
    }
}

} // verus!
