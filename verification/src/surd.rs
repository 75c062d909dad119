//! Integers with a square root adjoined: the numbers `a + b * sqrt(v)`,
//! their arithmetic, and their arithmetic modulo a prime.

use crate::divisibility::{
    binomial, lemma_binomial_edge, lemma_combination_is_multiple, lemma_odd_divisor,
    lemma_prime_divides_binomial,
};
use crate::trial_division::is_prime;
use vstd::arithmetic::div_mod::lemma_small_mod;
use vstd::arithmetic::mul::{
    lemma_mul_is_associative, lemma_mul_is_commutative, lemma_mul_is_distributive_add,
    lemma_mul_is_distributive_add_other_way,
};
use vstd::arithmetic::power::{lemma_pow0, lemma_pow1, lemma_pow_adds, pow};
use vstd::prelude::*;

verus! {


/// A number of the form `a + b * sqrt(v)` with integers `a`, `b` and `v`.
/// Numbers with the same `v` can be added and multiplied.
pub struct Surd {
    pub a: int,
    pub b: int,
    pub v: int,
}

impl Surd {
    /// The integer `c` among the numbers with root `sqrt(v)`.
    pub open spec fn integer(c: int, v: int) -> Surd {
        Surd { a: c, b: 0, v }
    }

    /// The number one.
    pub open spec fn one(v: int) -> Surd {
        Surd::integer(1, v)
    }

    /// The number minus one.
    pub open spec fn minus_one(v: int) -> Surd {
        Surd::integer(-1, v)
    }

    /// The number `2 + sqrt(3)`.
    pub open spec fn omega() -> Surd {
        Surd { a: 2, b: 1, v: 3 }
    }

    /// The sum of two numbers.
    pub open spec fn plus(self, other: Surd) -> Surd {
        Surd { a: self.a + other.a, b: self.b + other.b, v: self.v }
    }

    /// The product of two numbers.
    pub open spec fn times(self, other: Surd) -> Surd {
        Surd {
            a: self.a * other.a + self.v * (self.b * other.b),
            b: self.a * other.b + self.b * other.a,
            v: self.v,
        }
    }

    /// The number with the sign of the root changed.
    pub open spec fn conjugate(self) -> Surd {
        Surd { a: self.a, b: -self.b, v: self.v }
    }

    /// The product of the number and its conjugate, which is an integer.
    pub open spec fn norm(self) -> int {
        self.a * self.a - self.v * (self.b * self.b)
    }

    /// The number raised to the power `n`.
    pub open spec fn power(self, n: nat) -> Surd
        decreases n,
    {
        if n == 0 {
            Surd::one(self.v)
        } else {
            self.power((n - 1) as nat).times(self)
        }
    }

    /// Whether two numbers with the same root differ by a multiple of `q`
    /// in each part.
    pub open spec fn congruent(self, other: Surd, q: int) -> bool {
        self.v == other.v && (self.a - other.a) % q == 0 && (self.b - other.b) % q == 0
    }
}

/// `(u + v w) z = u z + v (w z)` and `z (u + v w) = z u + v (z w)`.
pub proof fn lemma_spread(u: int, v: int, w: int, z: int)
    ensures
        (u + v * w) * z == u * z + v * (w * z),
        z * (u + v * w) == z * u + v * (z * w),
{
    lemma_mul_is_distributive_add_other_way(z, u, v * w);
    lemma_mul_is_associative(v, w, z);
    lemma_mul_is_distributive_add(z, u, v * w);
    lemma_mul_is_associative(z, v, w);
    lemma_mul_is_commutative(z, v);
    lemma_mul_is_associative(v, z, w);
}

/// `(ab)(cd) = (ad)(cb) = (ac)(bd)`.
pub proof fn lemma_swap_factors(a: int, b: int, c: int, d: int)
    ensures
        (a * b) * (c * d) == (a * d) * (c * b),
        (a * b) * (c * d) == (a * c) * (b * d),
{
    lemma_mul_is_associative(a, b, c * d);
    lemma_mul_is_associative(b, c, d);
    lemma_mul_is_commutative(b, c);
    lemma_mul_is_associative(c, b, d);
    lemma_mul_is_associative(a, c, b * d);
    lemma_mul_is_commutative(b, d);
    lemma_mul_is_commutative(c * b, d);
    lemma_mul_is_associative(d, c, b);
    lemma_mul_is_associative(a, d, c * b);
    assert(b * (c * d) == c * (b * d));
    assert(c * (b * d) == c * (d * b));
    lemma_mul_is_associative(c, d, b);
    lemma_mul_is_commutative(c, d);
    assert(c * (d * b) == (d * c) * b);
    assert((d * c) * b == d * (c * b));
}

/// Multiplication is associative.
pub proof fn lemma_times_associative(x: Surd, y: Surd, z: Surd)
    requires
        x.v == y.v,
        y.v == z.v,
    ensures
        x.times(y).times(z) == x.times(y.times(z)),
{
    let v = x.v;
    let m1 = x.a * (y.a * z.a);
    let m2 = x.b * (y.b * z.a);
    let m3 = x.a * (y.b * z.b);
    let m4 = x.b * (y.a * z.b);
    let m5 = x.a * (y.a * z.b);
    let m6 = x.b * (y.b * z.b);
    let m7 = x.a * (y.b * z.a);
    let m8 = x.b * (y.a * z.a);
    lemma_mul_is_associative(x.a, y.a, z.a);
    lemma_mul_is_associative(x.b, y.b, z.a);
    lemma_mul_is_associative(x.a, y.b, z.b);
    lemma_mul_is_associative(x.b, y.a, z.b);
    lemma_mul_is_associative(x.a, y.a, z.b);
    lemma_mul_is_associative(x.b, y.b, z.b);
    lemma_mul_is_associative(x.a, y.b, z.a);
    lemma_mul_is_associative(x.b, y.a, z.a);
    lemma_spread(x.a * y.a, v, x.b * y.b, z.a);
    lemma_mul_is_distributive_add_other_way(z.b, x.a * y.b, x.b * y.a);
    lemma_spread(y.a * z.a, v, y.b * z.b, x.a);
    lemma_mul_is_distributive_add(x.b, y.a * z.b, y.b * z.a);
    lemma_mul_is_distributive_add(v, m3, m4);
    lemma_mul_is_distributive_add(v, m4, m2);
    assert(x.times(y).times(z).a == m1 + v * m2 + (v * m3 + v * m4));
    assert(x.times(y.times(z)).a == m1 + v * m3 + (v * m4 + v * m2));
    lemma_spread(x.a * y.a, v, x.b * y.b, z.b);
    lemma_mul_is_distributive_add_other_way(z.a, x.a * y.b, x.b * y.a);
    lemma_mul_is_distributive_add(x.a, y.a * z.b, y.b * z.a);
    lemma_spread(y.a * z.a, v, y.b * z.b, x.b);
    assert(x.times(y).times(z).b == m5 + v * m6 + (m7 + m8));
    assert(x.times(y.times(z)).b == (m5 + m7) + (m8 + v * m6));
}

/// Multiplication is commutative.
pub proof fn lemma_times_commutative(x: Surd, y: Surd)
    requires
        x.v == y.v,
    ensures
        x.times(y) == y.times(x),
{
    lemma_mul_is_commutative(x.a, y.a);
    lemma_mul_is_commutative(x.b, y.b);
    lemma_mul_is_commutative(x.a, y.b);
    lemma_mul_is_commutative(x.b, y.a);
}

/// One is neutral.
pub proof fn lemma_times_one(x: Surd)
    ensures
        x.times(Surd::one(x.v)) == x,
        Surd::one(x.v).times(x) == x,
{
    assert(x.a * 1 + x.v * (x.b * 0) == x.a) by (nonlinear_arith);
    assert(x.a * 0 + x.b * 1 == x.b) by (nonlinear_arith);
    assert(1 * x.a + x.v * (0 * x.b) == x.a) by (nonlinear_arith);
    assert(1 * x.b + 0 * x.a == x.b) by (nonlinear_arith);
}

/// Multiplication distributes over addition.
pub proof fn lemma_times_distributes(x: Surd, y: Surd, z: Surd)
    requires
        x.v == y.v,
        y.v == z.v,
    ensures
        x.times(y.plus(z)) == x.times(y).plus(x.times(z)),
        y.plus(z).times(x) == y.times(x).plus(z.times(x)),
{
    lemma_mul_is_distributive_add(x.a, y.a, z.a);
    lemma_mul_is_distributive_add(x.b, y.b, z.b);
    lemma_mul_is_distributive_add(x.v, x.b * y.b, x.b * z.b);
    lemma_mul_is_distributive_add(x.a, y.b, z.b);
    lemma_mul_is_distributive_add(x.b, y.a, z.a);
    lemma_times_commutative(x, y.plus(z));
    lemma_times_commutative(x, y);
    lemma_times_commutative(x, z);
}

/// The norm of a product is the product of the norms.
pub proof fn lemma_norm_multiplicative(x: Surd, y: Surd)
    requires
        x.v == y.v,
    ensures
        x.times(y).norm() == x.norm() * y.norm(),
{
    let v = x.v;
    let p = x.a * y.a;
    let q = x.b * y.b;
    let r = x.a * y.b;
    let s = x.b * y.a;
    assert((p + v * q) * (p + v * q) == p * p + 2 * (v * (p * q)) + v * (v * (q * q)))
        by (nonlinear_arith);
    assert((r + s) * (r + s) == r * r + 2 * (r * s) + s * s) by (nonlinear_arith);
    lemma_swap_factors(x.a, y.a, x.b, y.b);
    assert(p * q == r * s);
    lemma_swap_factors(x.a, y.a, x.a, y.a);
    lemma_swap_factors(x.b, y.b, x.b, y.b);
    lemma_swap_factors(x.a, y.b, x.a, y.b);
    lemma_swap_factors(x.b, y.a, x.b, y.a);
    let xa2 = x.a * x.a;
    let xb2 = x.b * x.b;
    let ya2 = y.a * y.a;
    let yb2 = y.b * y.b;
    assert(p * p == xa2 * ya2);
    assert(q * q == xb2 * yb2);
    assert(r * r == xa2 * yb2);
    assert(s * s == xb2 * ya2);
    let rr = r * r;
    let ss = s * s;
    let rs = r * s;
    let qq = q * q;
    assert(v * (rr + 2 * rs + ss) == v * rr + 2 * (v * rs) + v * ss) by (nonlinear_arith);
    let u = v * xb2;
    let w = v * yb2;
    assert((xa2 - u) * (ya2 - w) == xa2 * ya2 - xa2 * w - u * ya2 + u * w) by (nonlinear_arith);
    assert(xa2 * w == v * (xa2 * yb2)) by (nonlinear_arith)
        requires
            w == v * yb2,
    ;
    assert(u * ya2 == v * (xb2 * ya2)) by (nonlinear_arith)
        requires
            u == v * xb2,
    ;
    assert(u * w == v * (v * (xb2 * yb2))) by (nonlinear_arith)
        requires
            u == v * xb2,
            w == v * yb2,
    ;
}

/// A number times its conjugate is its norm.
pub proof fn lemma_times_conjugate(x: Surd)
    ensures
        x.times(x.conjugate()) == Surd::integer(x.norm(), x.v),
{
    assert(x.b * (-x.b) == -(x.b * x.b)) by (nonlinear_arith);
    assert(x.v * (-(x.b * x.b)) == -(x.v * (x.b * x.b))) by (nonlinear_arith);
    assert(x.a * (-x.b) + x.b * x.a == 0) by (nonlinear_arith);
}

/// The power with the sum of two exponents is the product of the powers.
pub proof fn lemma_power_adds(x: Surd, m: nat, n: nat)
    ensures
        x.power(m + n) == x.power(m).times(x.power(n)),
        x.power(m).v == x.v,
    decreases n,
{
    lemma_power_root(x, m);
    lemma_power_root(x, n);
    if n == 0 {
        lemma_times_one(x.power(m));
    } else {
        lemma_power_root(x, (n - 1) as nat);
        lemma_power_adds(x, m, (n - 1) as nat);
        lemma_times_associative(x.power(m), x.power((n - 1) as nat), x);
    }
}

/// A power has the root of its base.
pub proof fn lemma_power_root(x: Surd, n: nat)
    ensures
        x.power(n).v == x.v,
    decreases n,
{
    if n > 0 {
        lemma_power_root(x, (n - 1) as nat);
    }
}

/// The power with the product of two exponents is the power of the power.
pub proof fn lemma_power_multiplies(x: Surd, m: nat, n: nat)
    ensures
        x.power(m * n) == x.power(m).power(n),
    decreases n,
{
    lemma_power_root(x, m);
    if n == 0 {
        assert(m * n == 0) by (nonlinear_arith)
            requires
                n == 0,
        ;
    } else {
        lemma_power_multiplies(x, m, (n - 1) as nat);
        assert(m * n == m * (n - 1) + m) by (nonlinear_arith);
        lemma_power_adds(x, m * ((n - 1) as nat), m);
    }
}

/// Every power of a number of norm one has norm one.
pub proof fn lemma_power_norm(x: Surd, n: nat)
    requires
        x.norm() == 1,
    ensures
        x.power(n).norm() == 1,
    decreases n,
{
    if n > 0 {
        let y = x.power((n - 1) as nat);
        lemma_power_root(x, (n - 1) as nat);
        lemma_power_norm(x, (n - 1) as nat);
        lemma_norm_multiplicative(y, x);
        assert(y.norm() * x.norm() == 1) by (nonlinear_arith)
            requires
                y.norm() == 1,
                x.norm() == 1,
        ;
    } else {
        assert(1 * 1 - x.v * (0 * 0) == 1) by (nonlinear_arith);
    }
}

/// Every number is congruent to itself.
pub proof fn lemma_congruent_reflexive(x: Surd, q: int)
    requires
        q > 0,
    ensures
        x.congruent(x, q),
{
    lemma_small_mod(0, q as nat);
}

/// Congruence goes both ways.
pub proof fn lemma_congruent_symmetric(x: Surd, y: Surd, q: int)
    requires
        q > 0,
        x.congruent(y, q),
    ensures
        y.congruent(x, q),
{
    lemma_combination_is_multiple(q, x.a - y.a, -1, 0, 0);
    lemma_combination_is_multiple(q, x.b - y.b, -1, 0, 0);
    assert((x.a - y.a) * (-1) + 0 * 0 == y.a - x.a) by (nonlinear_arith);
    assert((x.b - y.b) * (-1) + 0 * 0 == y.b - x.b) by (nonlinear_arith);
}

/// Congruence carries over.
pub proof fn lemma_congruent_transitive(x: Surd, y: Surd, z: Surd, q: int)
    requires
        q > 0,
        x.congruent(y, q),
        y.congruent(z, q),
    ensures
        x.congruent(z, q),
{
    lemma_combination_is_multiple(q, x.a - y.a, 1, y.a - z.a, 1);
    lemma_combination_is_multiple(q, x.b - y.b, 1, y.b - z.b, 1);
    assert((x.a - y.a) * 1 + (y.a - z.a) * 1 == x.a - z.a) by (nonlinear_arith);
    assert((x.b - y.b) * 1 + (y.b - z.b) * 1 == x.b - z.b) by (nonlinear_arith);
}

/// Congruent numbers have congruent sums with congruent numbers.
pub proof fn lemma_congruent_plus(x: Surd, y: Surd, z: Surd, w: Surd, q: int)
    requires
        q > 0,
        x.congruent(y, q),
        z.congruent(w, q),
        x.v == z.v,
    ensures
        x.plus(z).congruent(y.plus(w), q),
{
    lemma_combination_is_multiple(q, x.a - y.a, 1, z.a - w.a, 1);
    lemma_combination_is_multiple(q, x.b - y.b, 1, z.b - w.b, 1);
    assert((x.a - y.a) * 1 + (z.a - w.a) * 1 == (x.a + z.a) - (y.a + w.a)) by (nonlinear_arith);
    assert((x.b - y.b) * 1 + (z.b - w.b) * 1 == (x.b + z.b) - (y.b + w.b)) by (nonlinear_arith);
}

/// Congruent numbers have congruent products with any third.
pub proof fn lemma_congruent_times(x: Surd, y: Surd, z: Surd, q: int)
    requires
        q > 0,
        x.congruent(y, q),
        z.v == x.v,
    ensures
        x.times(z).congruent(y.times(z), q),
        z.times(x).congruent(z.times(y), q),
{
    let v = x.v;
    lemma_combination_is_multiple(q, x.a - y.a, z.a, x.b - y.b, v * z.b);
    lemma_combination_is_multiple(q, x.a - y.a, z.b, x.b - y.b, z.a);
    let xz = x.b * z.b;
    let yz = y.b * z.b;
    assert((x.b - y.b) * (v * z.b) == v * xz - v * yz) by (nonlinear_arith)
        requires
            xz == x.b * z.b,
            yz == y.b * z.b,
    ;
    assert((x.a - y.a) * z.a == x.a * z.a - y.a * z.a) by (nonlinear_arith);
    assert((x.a - y.a) * z.b + (x.b - y.b) * z.a == (x.a * z.b + x.b * z.a) - (y.a * z.b + y.b
        * z.a)) by (nonlinear_arith);
    lemma_times_commutative(x, z);
    lemma_times_commutative(y, z);
}

/// Congruent numbers have congruent powers.
pub proof fn lemma_congruent_power(x: Surd, y: Surd, n: nat, q: int)
    requires
        q > 0,
        x.congruent(y, q),
    ensures
        x.power(n).congruent(y.power(n), q),
    decreases n,
{
    if n == 0 {
        lemma_congruent_reflexive(Surd::one(x.v), q);
    } else {
        let m = (n - 1) as nat;
        lemma_power_root(x, m);
        lemma_power_root(y, m);
        lemma_congruent_power(x, y, m, q);
        lemma_congruent_times(x.power(m), y.power(m), x, q);
        lemma_congruent_times(x, y, y.power(m), q);
        lemma_congruent_transitive(x.power(n), y.power(m).times(x), y.power(n), q);
    }
}

/// Every power of one is one.
pub proof fn lemma_power_of_one(n: nat, v: int)
    ensures
        Surd::one(v).power(n) == Surd::one(v),
    decreases n,
{
    if n > 0 {
        lemma_power_of_one((n - 1) as nat, v);
        lemma_times_one(Surd::one(v));
    }
}

/// An odd power of minus one is minus one.
pub proof fn lemma_odd_power_of_minus_one(n: nat, v: int)
    requires
        n % 2 == 1,
    ensures
        Surd::minus_one(v).power(n) == Surd::minus_one(v),
    decreases n,
{
    let minus = Surd::minus_one(v);
    assert(minus.times(minus) == Surd::one(v)) by {
        assert((-1) * (-1) + v * (0 * 0) == 1) by (nonlinear_arith);
        assert((-1) * 0 + 0 * (-1) == 0) by (nonlinear_arith);
    }
    lemma_times_one(minus);
    assert(minus.power(0) == Surd::one(v));
    assert(minus.power(1) == Surd::one(v).times(minus));
    if n > 1 {
        lemma_odd_power_of_minus_one((n - 2) as nat, v);
        lemma_power_adds(minus, (n - 2) as nat, 2);
        assert(minus.power(2) == minus.power(1).times(minus));
    }
}

/// The term of the binomial expansion of the `n`-th power of `x + y` in
/// which `x` occurs `k` times.
pub open spec fn binomial_term(x: Surd, y: Surd, n: nat, k: nat) -> Surd {
    Surd::integer(binomial(n, k) as int, x.v).times(x.power(k).times(y.power((n - k) as nat)))
}

/// The sum of the first `m` terms of the binomial expansion of the `n`-th
/// power of `x + y`.
pub open spec fn binomial_sum(x: Surd, y: Surd, n: nat, m: nat) -> Surd
    decreases m,
{
    if m == 0 {
        Surd::integer(0, x.v)
    } else {
        binomial_sum(x, y, n, (m - 1) as nat).plus(binomial_term(x, y, n, (m - 1) as nat))
    }
}

/// The terms and the partial sums of an expansion have the root of what is
/// expanded.
pub proof fn lemma_binomial_root(x: Surd, y: Surd, n: nat, m: nat)
    requires
        x.v == y.v,
    ensures
        binomial_sum(x, y, n, m).v == x.v,
        binomial_term(x, y, n, m).v == x.v,
    decreases m,
{
    if m > 0 {
        lemma_binomial_root(x, y, n, (m - 1) as nat);
    }
}

/// Zero times anything is zero.
pub proof fn lemma_zero_times(x: Surd)
    ensures
        Surd::integer(0, x.v).times(x) == Surd::integer(0, x.v),
        x.times(Surd::integer(0, x.v)) == Surd::integer(0, x.v),
{
    assert(0 * x.a + x.v * (0 * x.b) == 0) by (nonlinear_arith);
    assert(0 * x.b + 0 * x.a == 0) by (nonlinear_arith);
    lemma_times_commutative(x, Surd::integer(0, x.v));
}

/// The first term of each expansion, times `y`, is the first term of the
/// next; the last term, times `x`, is the last term of the next.
pub proof fn lemma_term_edges(x: Surd, y: Surd, n: nat)
    requires
        x.v == y.v,
    ensures
        binomial_term(x, y, n, 0) == y.power(n),
        binomial_term(x, y, n, n) == x.power(n),
        binomial_term(x, y, n, 0).times(y) == binomial_term(x, y, n + 1, 0),
        binomial_term(x, y, n, n).times(x) == binomial_term(x, y, n + 1, n + 1),
{
    lemma_binomial_edge(n, n);
    lemma_binomial_edge(n + 1, n + 1);
    lemma_power_root(x, n);
    lemma_power_root(y, n);
    lemma_power_root(x, n + 1);
    lemma_power_root(y, n + 1);
    lemma_times_one(y.power(n));
    lemma_times_one(x.power(n));
    lemma_times_one(y.power(n + 1));
    lemma_times_one(x.power(n + 1));
    assert(x.power(0) == Surd::one(x.v));
    assert(y.power(0) == Surd::one(x.v));
    assert(y.power(n + 1) == y.power(n).times(y));
    assert(x.power(n + 1) == x.power(n).times(x));
}

/// Pascal's rule for the terms: the term with `k` times `x`, times `y`, and
/// the term with `k - 1` times `x`, times `x`, add up to the term with `k`
/// times `x` of the next expansion.
pub proof fn lemma_term_step(x: Surd, y: Surd, n: nat, k: nat)
    requires
        x.v == y.v,
        1 <= k <= n,
    ensures
        binomial_term(x, y, n, k).times(y).plus(binomial_term(x, y, n, (k - 1) as nat).times(x))
            == binomial_term(x, y, n + 1, k),
{
    let v = x.v;
    let j = (k - 1) as nat;
    let c1 = Surd::integer(binomial(n, k) as int, v);
    let c2 = Surd::integer(binomial(n, j) as int, v);
    let xk = x.power(k);
    let xj = x.power(j);
    let yl = y.power((n - k) as nat);
    let yh = y.power((n - j) as nat);
    let mono = xk.times(yh);
    lemma_power_root(x, k);
    lemma_power_root(x, j);
    lemma_power_root(y, (n - k) as nat);
    lemma_power_root(y, (n - j) as nat);
    assert(yh == yl.times(y));
    assert(xk == xj.times(x));
    // The first product.
    lemma_times_associative(c1, xk.times(yl), y);
    lemma_times_associative(xk, yl, y);
    assert(binomial_term(x, y, n, k).times(y) == c1.times(mono));
    // The second product.
    lemma_times_associative(c2, xj.times(yh), x);
    lemma_times_associative(xj, yh, x);
    lemma_times_commutative(yh, x);
    lemma_times_associative(xj, x, yh);
    assert(binomial_term(x, y, n, j).times(x) == c2.times(mono));
    // Their sum.
    lemma_times_distributes(mono, c1, c2);
    assert(c1.plus(c2) == Surd::integer(binomial(n + 1, k) as int, v));
}

/// Pascal's rule for the partial sums.
pub proof fn lemma_sum_step(x: Surd, y: Surd, n: nat, m: nat)
    requires
        x.v == y.v,
        1 <= m <= n + 1,
    ensures
        binomial_sum(x, y, n, m).times(y).plus(binomial_sum(x, y, n, (m - 1) as nat).times(x))
            == binomial_sum(x, y, n + 1, m),
    decreases m,
{
    let zero = Surd::integer(0, x.v);
    let k = (m - 1) as nat;
    lemma_binomial_root(x, y, n, k);
    lemma_binomial_root(x, y, n, m);
    if m == 1 {
        lemma_term_edges(x, y, n);
        lemma_zero_times(x);
        lemma_zero_times(y);
        assert(binomial_sum(x, y, n, 0) == zero);
        assert(binomial_sum(x, y, n + 1, 0) == zero);
        assert(binomial_sum(x, y, n, 1) == zero.plus(binomial_term(x, y, n, 0)));
        lemma_times_distributes(y, zero, binomial_term(x, y, n, 0));
        assert(binomial_sum(x, y, n + 1, 1) == zero.plus(binomial_term(x, y, n + 1, 0)));
    } else {
        let j = (k - 1) as nat;
        lemma_binomial_root(x, y, n, j);
        lemma_sum_step(x, y, n, k);
        lemma_term_step(x, y, n, k);
        lemma_times_distributes(y, binomial_sum(x, y, n, k), binomial_term(x, y, n, k));
        lemma_times_distributes(x, binomial_sum(x, y, n, j), binomial_term(x, y, n, j));
    }
}

/// The binomial theorem: the `n`-th power of `x + y` is the sum of all the
/// terms of its expansion.
pub proof fn lemma_binomial_theorem(x: Surd, y: Surd, n: nat)
    requires
        x.v == y.v,
    ensures
        x.plus(y).power(n) == binomial_sum(x, y, n, n + 1),
    decreases n,
{
    let zero = Surd::integer(0, x.v);
    if n == 0 {
        lemma_term_edges(x, y, 0);
        assert(binomial_sum(x, y, 0, 0) == zero);
        assert(binomial_sum(x, y, 0, 1) == zero.plus(binomial_term(x, y, 0, 0)));
        assert(y.power(0) == Surd::one(x.v));
    } else {
        let m = (n - 1) as nat;
        lemma_binomial_theorem(x, y, m);
        let whole = binomial_sum(x, y, m, n);
        let front = binomial_sum(x, y, m, m);
        lemma_binomial_root(x, y, m, n);
        lemma_binomial_root(x, y, m, m);
        lemma_times_distributes(whole, x, y);
        lemma_sum_step(x, y, m, n);
        lemma_term_edges(x, y, m);
        lemma_times_distributes(x, front, binomial_term(x, y, m, m));
        lemma_times_commutative(whole, x);
        lemma_times_commutative(whole, y);
        assert(whole == front.plus(binomial_term(x, y, m, m)));
        assert(binomial_sum(x, y, n, n + 1) == binomial_sum(x, y, n, n).plus(
            binomial_term(x, y, n, n),
        ));
    }
}

/// Modulo a prime, the power of a sum with the prime as exponent is the sum
/// of the powers: every other term of the expansion is a multiple of the
/// prime.
pub proof fn lemma_power_of_sum(x: Surd, y: Surd, q: nat)
    requires
        is_prime(q as int),
        x.v == y.v,
    ensures
        x.plus(y).power(q).congruent(x.power(q).plus(y.power(q)), q as int),
{
    lemma_binomial_theorem(x, y, q);
    lemma_middle_terms_vanish(x, y, q, q);
    lemma_term_edges(x, y, q);
    lemma_power_root(x, q);
    lemma_power_root(y, q);
    lemma_binomial_root(x, y, q, q);
    lemma_congruent_reflexive(x.power(q), q as int);
    lemma_congruent_plus(
        binomial_sum(x, y, q, q),
        y.power(q),
        binomial_term(x, y, q, q),
        x.power(q),
        q as int,
    );
    assert(y.power(q).plus(x.power(q)) == x.power(q).plus(y.power(q)));
}

/// Modulo a prime `q`, the terms of the expansion of a `q`-th power after
/// the first and before the last add nothing.
pub proof fn lemma_middle_terms_vanish(x: Surd, y: Surd, q: nat, m: nat)
    requires
        is_prime(q as int),
        x.v == y.v,
        1 <= m <= q,
    ensures
        binomial_sum(x, y, q, m).congruent(y.power(q), q as int),
    decreases m,
{
    let zero = Surd::integer(0, x.v);
    let k = (m - 1) as nat;
    lemma_power_root(y, q);
    lemma_term_edges(x, y, q);
    lemma_binomial_root(x, y, q, k);
    if m == 1 {
        assert(binomial_sum(x, y, q, 0) == zero);
        assert(binomial_sum(x, y, q, 1) == zero.plus(binomial_term(x, y, q, 0)));
        lemma_congruent_reflexive(y.power(q), q as int);
    } else {
        lemma_middle_terms_vanish(x, y, q, k);
        lemma_prime_divides_binomial(q, k);
        let c = Surd::integer(binomial(q, k) as int, x.v);
        let mono = x.power(k).times(y.power((q - k) as nat));
        lemma_power_root(x, k);
        lemma_power_root(y, (q - k) as nat);
        lemma_small_mod(0, q);
        assert(c.congruent(zero, q as int));
        lemma_congruent_times(c, zero, mono, q as int);
        lemma_zero_times(mono);
        lemma_congruent_plus(
            binomial_sum(x, y, q, k),
            y.power(q),
            binomial_term(x, y, q, k),
            zero,
            q as int,
        );
        assert(y.power(q).plus(zero) == y.power(q));
    }
}

/// The power of a product is the product of the powers.
pub proof fn lemma_power_of_product(x: Surd, y: Surd, n: nat)
    requires
        x.v == y.v,
    ensures
        x.times(y).power(n) == x.power(n).times(y.power(n)),
    decreases n,
{
    if n == 0 {
        lemma_times_one(Surd::one(x.v));
    } else {
        let m = (n - 1) as nat;
        let xm = x.power(m);
        let ym = y.power(m);
        lemma_power_of_product(x, y, m);
        lemma_power_root(x, m);
        lemma_power_root(y, m);
        lemma_times_associative(xm.times(ym), x, y);
        lemma_times_associative(xm, ym, x);
        lemma_times_commutative(ym, x);
        lemma_times_associative(xm, x, ym);
        lemma_times_associative(xm.times(x), ym, y);
    }
}

/// The powers of an integer among the numbers with a root are the powers
/// of the integer.
pub proof fn lemma_integer_power(c: int, v: int, n: nat)
    ensures
        Surd::integer(c, v).power(n) == Surd::integer(pow(c, n), v),
    decreases n,
{
    if n == 0 {
        lemma_pow0(c);
    } else {
        let m = (n - 1) as nat;
        lemma_integer_power(c, v, m);
        lemma_pow_adds(c, m, 1);
        lemma_pow1(c);
        assert(pow(c, m) * c + v * (0 * 0) == pow(c, m) * c) by (nonlinear_arith);
        assert(pow(c, m) * 0 + 0 * c == 0) by (nonlinear_arith);
    }
}

/// Modulo an odd number, halving is allowed: numbers whose doubles are
/// congruent are congruent.
pub proof fn lemma_cancel_two(x: Surd, y: Surd, q: int)
    requires
        q > 0,
        q % 2 == 1,
        Surd::integer(2, x.v).times(x).congruent(Surd::integer(2, x.v).times(y), q),
        x.v == y.v,
    ensures
        x.congruent(y, q),
{
    let v = x.v;
    assert(2 * x.a + v * (0 * x.b) == 2 * x.a) by (nonlinear_arith);
    assert(2 * y.a + v * (0 * y.b) == 2 * y.a) by (nonlinear_arith);
    assert(2 * x.b + 0 * x.a == 2 * x.b) by (nonlinear_arith);
    assert(2 * y.b + 0 * y.a == 2 * y.b) by (nonlinear_arith);
    lemma_odd_divisor(q, x.a - y.a);
    lemma_odd_divisor(q, x.b - y.b);
}

/// Modulo an odd prime `q`, the power of two with exponent `q - 1` is one.
pub proof fn lemma_fermat_for_two(q: nat, v: int)
    requires
        is_prime(q as int),
        q % 2 == 1,
    ensures
        Surd::integer(2, v).power((q - 1) as nat).congruent(Surd::one(v), q as int),
{
    let one = Surd::one(v);
    let two = Surd::integer(2, v);
    let low = two.power((q - 1) as nat);
    lemma_power_of_sum(one, one, q);
    lemma_power_of_one(q, v);
    assert(one.plus(one) == two);
    assert(two.power(q) == low.times(two));
    lemma_power_root(two, (q - 1) as nat);
    lemma_times_commutative(low, two);
    lemma_times_one(two);
    lemma_cancel_two(low, one, q as int);
}

/// The square root itself: the number `sqrt(v)`.
pub open spec fn root_of(v: int) -> Surd {
    Surd { a: 0, b: 1, v }
}

/// An odd power of `sqrt(v)` is a power of `v` times `sqrt(v)`.
pub proof fn lemma_odd_power_of_root(v: int, h: nat)
    ensures
        root_of(v).power(2 * h + 1) == (Surd { a: 0, b: pow(v, h), v }),
{
    let t = root_of(v);
    assert(t.power(0) == Surd::one(v));
    assert(t.power(1) == Surd::one(v).times(t));
    assert(t.power(2) == t.power(1).times(t));
    lemma_times_one(t);
    assert(t.times(t) == Surd::integer(v, v)) by {
        assert(0 * 0 + v * (1 * 1) == v) by (nonlinear_arith);
        assert(0 * 1 + 1 * 0 == 0) by (nonlinear_arith);
    }
    lemma_power_multiplies(t, 2, h);
    lemma_integer_power(v, v, h);
    assert(t.power(2 * h + 1) == t.power(2 * h).times(t));
    let e = pow(v, h);
    assert(e * 0 + v * (0 * 1) == 0) by (nonlinear_arith);
    assert(e * 1 + 0 * 0 == e) by (nonlinear_arith);
}

} // verus!
