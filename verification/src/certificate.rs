//! Why the Lucas-Lehmer test decides whether a Mersenne number is prime.
//!
//! The terms of the Lucas-Lehmer sequence are the traces of the powers of
//! `2 + sqrt(3)`, so the test asks whether a certain power of that number is
//! minus one modulo the Mersenne number. If it is, the powers below twice
//! that one are all different modulo every prime factor, and a prime factor
//! whose square does not exceed the Mersenne number has too few residues for
//! that: the Mersenne number is prime. If the Mersenne number is prime, two
//! is a square modulo it and three is not, and the power of a sum with the
//! prime as exponent is the sum of the powers; from these the power comes
//! out as minus one.

use crate::divisibility::{
    lemma_combination_is_multiple, lemma_divides_transitive, lemma_even_power_of_two,
    lemma_odd_divisor, lemma_odd_part, lemma_odd_power_of_negative, lemma_pigeonhole,
    lemma_prime_divides_factor, lemma_same_remainder, lemma_small_prime_factor,
};
use crate::lucas_lehmer::{
    lemma_exponent_two_fails, lemma_mersenne_number_bound, lucas_lehmer, lucas_lehmer_residue,
    mersenne_number,
};
use crate::surd::{
    lemma_cancel_two, lemma_congruent_power, lemma_congruent_symmetric, lemma_congruent_times,
    lemma_congruent_transitive, lemma_fermat_for_two, lemma_integer_power,
    lemma_odd_power_of_minus_one, lemma_odd_power_of_root, lemma_power_adds, lemma_power_multiplies,
    lemma_power_norm, lemma_power_of_one, lemma_power_of_product, lemma_power_of_sum,
    lemma_power_root, lemma_times_associative, lemma_times_conjugate, lemma_times_one, root_of,
    Surd,
};
use crate::trial_division::is_prime;
use vstd::arithmetic::div_mod::{
    lemma_fundamental_div_mod, lemma_mod_bound, lemma_mod_multiples_basic, lemma_small_mod,
};
use vstd::arithmetic::power::{
    lemma_pow0, lemma_pow1, lemma_pow_adds, lemma_pow_increases, lemma_pow_positive, pow,
};
use vstd::prelude::*;

verus! {

/// The Lucas-Lehmer sequence itself, without any reduction: it starts at 4,
/// and each term is the square of the one before, less two.
pub open spec fn lucas_term(k: nat) -> int
    decreases k,
{
    if k == 0 {
        4
    } else {
        lucas_term((k - 1) as nat) * lucas_term((k - 1) as nat) - 2
    }
}

/// The power of `2 + sqrt(3)` whose exponent is the `k`-th power of two.
pub open spec fn omega_power(k: nat) -> Surd {
    Surd::omega().power(pow(2, k) as nat)
}

/// Each of these powers is the square of the one before.
pub proof fn lemma_omega_power_squares(k: nat)
    ensures
        omega_power(k + 1) == omega_power(k).times(omega_power(k)),
        pow(2, k) > 0,
        pow(2, k + 1) == 2 * pow(2, k),
{
    lemma_pow_positive(2, k);
    lemma_pow_adds(2, k, 1);
    lemma_pow1(2);
    assert(pow(2, k) * 2 == 2 * pow(2, k)) by (nonlinear_arith);
    lemma_power_adds(Surd::omega(), pow(2, k) as nat, pow(2, k) as nat);
}

/// The terms of the sequence are the traces of these powers: twice their
/// rational part.
pub proof fn lemma_term_is_trace(k: nat)
    ensures
        lucas_term(k) == 2 * omega_power(k).a,
        omega_power(k).norm() == 1,
        omega_power(k).v == 3,
    decreases k,
{
    let omega = Surd::omega();
    lemma_power_root(omega, pow(2, k) as nat);
    assert(omega.norm() == 1) by {
        assert(2 * 2 - 3 * (1 * 1) == 1int);
    }
    lemma_pow_positive(2, k);
    lemma_power_norm(omega, pow(2, k) as nat);
    if k == 0 {
        lemma_pow0(2);
        assert(omega.power(0) == Surd::one(3));
        assert(omega.power(1) == Surd::one(3).times(omega));
        lemma_times_one(omega);
    } else {
        let j = (k - 1) as nat;
        lemma_term_is_trace(j);
        lemma_omega_power_squares(j);
        let x = omega_power(j);
        assert(2 * (x.a * x.a + 3 * (x.b * x.b)) == (2 * x.a) * (2 * x.a) - 2) by (nonlinear_arith)
            requires
                x.a * x.a - 3 * (x.b * x.b) == 1,
        ;
    }
}

/// Reducing at every step changes each term by a multiple of the modulus.
pub proof fn lemma_residue_is_term(p: nat, k: nat)
    requires
        p >= 2,
    ensures
        (lucas_lehmer_residue(p, k) - lucas_term(k)) % mersenne_number(p) == 0,
    decreases k,
{
    let m = mersenne_number(p);
    lemma_mersenne_number_bound(p);
    if k == 0 {
        lemma_small_mod(0, m as nat);
    } else {
        let j = (k - 1) as nat;
        let r = lucas_lehmer_residue(p, j);
        let s = lucas_term(j);
        lemma_residue_is_term(p, j);
        lemma_fundamental_div_mod(r * r - 2, m);
        let quotient = (r * r - 2) / m;
        lemma_mod_multiples_basic(-quotient, m);
        assert(lucas_lehmer_residue(p, k) - (r * r - 2) == (-quotient) * m) by (nonlinear_arith)
            requires
                r * r - 2 == m * quotient + lucas_lehmer_residue(p, k),
        ;
        lemma_combination_is_multiple(m, r - s, r + s, lucas_lehmer_residue(p, k) - (r * r - 2), 1);
        assert((r - s) * (r + s) + (lucas_lehmer_residue(p, k) - (r * r - 2)) * 1
            == lucas_lehmer_residue(p, k) - (s * s - 2)) by (nonlinear_arith);
    }
}

/// Where the test passes, the power of `2 + sqrt(3)` with exponent
/// `2^(p-1)` is minus one modulo every odd divisor of the Mersenne number.
pub proof fn lemma_passing_power_is_minus_one(p: nat, q: int)
    requires
        p > 2,
        lucas_lehmer(p),
        q > 0,
        q % 2 == 1,
        mersenne_number(p) % q == 0,
    ensures
        omega_power((p - 1) as nat).congruent(Surd::minus_one(3), q),
{
    let m = mersenne_number(p);
    let k = (p - 2) as nat;
    let r = lucas_lehmer_residue(p, k);
    let s = lucas_term(k);
    let x = omega_power(k);
    lemma_mersenne_number_bound(p);
    lemma_residue_is_term(p, k);
    lemma_combination_is_multiple(m, r, 1, r - s, -1);
    assert(r * 1 + (r - s) * (-1) == s) by (nonlinear_arith);
    lemma_divides_transitive(q, m, s);
    lemma_term_is_trace(k);
    lemma_odd_divisor(q, x.a);
    lemma_omega_power_squares(k);
    lemma_small_mod(0, q as nat);
    lemma_combination_is_multiple(q, x.a, 2 * x.a, 0, 0);
    assert(x.a * (2 * x.a) + 0 * 0 == (x.a * x.a + 3 * (x.b * x.b)) - (-1)) by (nonlinear_arith)
        requires
            x.a * x.a - 3 * (x.b * x.b) == 1,
    ;
    lemma_combination_is_multiple(q, x.a, 2 * x.b, 0, 0);
    assert(x.a * (2 * x.b) + 0 * 0 == (x.a * x.b + x.b * x.a) - 0) by (nonlinear_arith);
}

/// If two powers of `2 + sqrt(3)` are congruent, so are the power with the
/// difference of their exponents and one.
pub proof fn lemma_congruent_powers_cancel(i: nat, j: nat, q: int)
    requires
        q > 0,
        i <= j,
        Surd::omega().power(i).congruent(Surd::omega().power(j), q),
    ensures
        Surd::omega().power((j - i) as nat).congruent(Surd::one(3), q),
{
    let omega = Surd::omega();
    let d = (j - i) as nat;
    let low = omega.power(i);
    let back = low.conjugate();
    assert(omega.norm() == 1) by {
        assert(2 * 2 - 3 * (1 * 1) == 1int);
    }
    lemma_power_norm(omega, i);
    lemma_times_conjugate(low);
    lemma_power_adds(omega, d, i);
    lemma_times_associative(omega.power(d), low, back);
    lemma_times_one(omega.power(d));
    lemma_congruent_symmetric(low, omega.power(j), q);
    lemma_congruent_times(omega.power(j), low, back, q);
}

/// Where the power with exponent `2^(p-1)` is minus one modulo a number
/// above 2, the powers with exponents below `2^p` are all different modulo
/// that number.
pub proof fn lemma_powers_differ(p: nat, q: int, i: nat, j: nat)
    requires
        p >= 1,
        q > 2,
        omega_power((p - 1) as nat).congruent(Surd::minus_one(3), q),
        i < j < pow(2, p),
    ensures
        !Surd::omega().power(i).congruent(Surd::omega().power(j), q),
{
    let omega = Surd::omega();
    if omega.power(i).congruent(omega.power(j), q) {
        let d = (j - i) as nat;
        lemma_congruent_powers_cancel(i, j, q);
        let (low, odd) = lemma_odd_part(d);
        lemma_pow_positive(2, low);
        assert(pow(2, low) <= d) by (nonlinear_arith)
            requires
                d == pow(2, low) * odd,
                odd >= 1,
                pow(2, low) > 0,
        ;
        if low >= p {
            lemma_pow_increases(2, p, low);
        }
        let rest = (p - 1 - low) as nat;
        lemma_pow_adds(2, low, rest);
        lemma_pow_positive(2, rest);
        lemma_pow_positive(2, (p - 1) as nat);
        let half = pow(2, (p - 1) as nat) as nat;
        let lift = pow(2, rest) as nat;
        assert(half * odd == d * lift) by (nonlinear_arith)
            requires
                half == pow(2, low) * lift,
                d == pow(2, low) * odd,
        ;
        lemma_power_multiplies(omega, half, odd);
        lemma_congruent_power(omega.power(half), Surd::minus_one(3), odd, q);
        lemma_odd_power_of_minus_one(odd, 3);
        lemma_power_multiplies(omega, d, lift);
        lemma_congruent_power(omega.power(d), Surd::one(3), lift, q);
        lemma_power_of_one(lift, 3);
        let top = omega.power(half * odd);
        lemma_congruent_symmetric(top, Surd::minus_one(3), q);
        lemma_congruent_transitive(Surd::minus_one(3), top, Surd::one(3), q);
        lemma_fundamental_div_mod(-2, q);
        let k = (-2int) / q;
        assert(false) by (nonlinear_arith)
            requires
                -2 == q * k,
                q > 2,
        ;
    }
}

/// The place of a power of `2 + sqrt(3)` among the pairs of remainders
/// modulo `q`.
pub open spec fn residue_code(i: int, q: int) -> int {
    (Surd::omega().power(i as nat).a % q) * q + Surd::omega().power(i as nat).b % q
}

/// A passed test certifies a prime: where the Lucas-Lehmer test succeeds
/// for an exponent above 2, the Mersenne number with that exponent is prime.
pub proof fn lemma_lucas_lehmer_sound(p: nat)
    requires
        p > 2,
        lucas_lehmer(p),
    ensures
        is_prime(mersenne_number(p)),
{
    let m = mersenne_number(p);
    lemma_mersenne_number_bound(p);
    if !is_prime(m) {
        let q = lemma_small_prime_factor(m);
        lemma_pow_adds(2, 1, (p - 1) as nat);
        lemma_pow1(2);
        lemma_pow_positive(2, (p - 1) as nat);
        assert(m % 2 == 1) by {
            assert(m == 2 * pow(2, (p - 1) as nat) - 1);
        }
        assert(q != 2);
        assert(q % 2 != 0);
        lemma_passing_power_is_minus_one(p, q);
        let f = |i: int| residue_code(i, q);
        let n = pow(2, p);
        assert forall|i: int| 0 <= i < n implies 0 <= #[trigger] f(i) < q * q by {
            let x = Surd::omega().power(i as nat);
            lemma_mod_bound(x.a, q);
            lemma_mod_bound(x.b, q);
            let u = x.a % q;
            let v = x.b % q;
            assert(0 <= u * q + v < q * q) by (nonlinear_arith)
                requires
                    0 <= u < q,
                    0 <= v < q,
            ;
        }
        assert forall|i: int, j: int| 0 <= i < j < n implies #[trigger] f(i) != #[trigger] f(j) by {
            let x = Surd::omega().power(i as nat);
            let y = Surd::omega().power(j as nat);
            lemma_power_root(Surd::omega(), i as nat);
            lemma_power_root(Surd::omega(), j as nat);
            if f(i) == f(j) {
                lemma_mod_bound(x.a, q);
                lemma_mod_bound(x.b, q);
                lemma_mod_bound(y.a, q);
                lemma_mod_bound(y.b, q);
                let u = x.a % q;
                let v = x.b % q;
                let s = y.a % q;
                let t = y.b % q;
                assert(u == s && v == t) by (nonlinear_arith)
                    requires
                        u * q + v == s * q + t,
                        0 <= u < q,
                        0 <= v < q,
                        0 <= s < q,
                        0 <= t < q,
                ;
                lemma_same_remainder(x.a, y.a, q);
                lemma_same_remainder(x.b, y.b, q);
                lemma_powers_differ(p, q, i as nat, j as nat);
            }
        }
        assert(q * q >= 0) by (nonlinear_arith);
        lemma_pigeonhole(f, n, q * q);
    }
}

/// Half of the Mersenne number with exponent `p`, rounded down: the number
/// with `p - 1` binary digits, all of them one.
pub open spec fn half_mersenne(p: nat) -> nat {
    (pow(2, (p - 1) as nat) - 1) as nat
}

/// The Mersenne number with exponent `p` is twice its half and one.
pub proof fn lemma_half_mersenne(p: nat)
    requires
        p >= 1,
    ensures
        mersenne_number(p) == 2 * half_mersenne(p) + 1,
        pow(2, (p - 1) as nat) == half_mersenne(p) + 1,
        pow(2, p) == mersenne_number(p) + 1,
{
    lemma_pow_adds(2, (p - 1) as nat, 1);
    lemma_pow1(2);
    lemma_pow_positive(2, (p - 1) as nat);
    assert(pow(2, (p - 1) as nat) * 2 == 2 * pow(2, (p - 1) as nat)) by (nonlinear_arith);
}

/// A Mersenne number with an even exponent above 2 is not prime: it is the
/// product of the numbers next to the power of two with half the exponent.
pub proof fn lemma_prime_exponent_is_odd(p: nat)
    requires
        p > 2,
        is_prime(mersenne_number(p)),
    ensures
        p % 2 == 1,
{
    if p % 2 == 0 {
        let k = p / 2;
        let a = pow(2, k);
        let d = a - 1;
        lemma_pow_adds(2, k, k);
        lemma_mersenne_number_bound(k);
        assert(mersenne_number(p) == (a + 1) * d) by (nonlinear_arith)
            requires
                mersenne_number(p) == a * a - 1,
                d == a - 1,
        ;
        lemma_mod_multiples_basic(a + 1, d);
        assert(d < (a + 1) * d) by (nonlinear_arith)
            requires
                d >= 3,
                a >= 4,
        ;
        assert(mersenne_number(p) % d == 0);
    }
}

/// Modulo a Mersenne prime, two is a square, so its power with half the
/// prime's predecessor as exponent is one.
pub proof fn lemma_two_is_a_residue(p: nat, v: int)
    requires
        p > 2,
        is_prime(mersenne_number(p)),
    ensures
        Surd::integer(2, v).power(half_mersenne(p)).congruent(Surd::one(v), mersenne_number(p)),
{
    let q = mersenne_number(p) as nat;
    let h = half_mersenne(p);
    let one = Surd::one(v);
    let two = Surd::integer(2, v);
    lemma_mersenne_number_bound(p);
    lemma_half_mersenne(p);
    lemma_prime_exponent_is_odd(p);
    // Two to the power `p` is one more than the modulus.
    lemma_integer_power(2, v, p);
    lemma_mod_multiples_basic(1, q as int);
    assert(two.power(p).congruent(one, q as int));
    // So two is the square of its power with exponent `(p + 1) / 2`.
    let g = ((p + 1) / 2) as nat;
    let root = two.power(g);
    lemma_power_multiplies(two, g, 2);
    assert(g * 2 == p + 1) by (nonlinear_arith)
        requires
            g == (p + 1) / 2,
            p % 2 == 1,
    ;
    assert(two.power(p + 1) == two.power(p).times(two));
    lemma_power_root(two, p);
    lemma_congruent_times(two.power(p), one, two, q as int);
    lemma_times_one(two);
    assert(root.power(2).congruent(two, q as int));
    // The power of a square with exponent `h` is a power with exponent `q - 1`.
    lemma_congruent_power(root.power(2), two, h, q as int);
    lemma_power_multiplies(root, 2, h);
    assert(2 * h == q - 1);
    lemma_power_multiplies(two, g, (q - 1) as nat);
    lemma_power_multiplies(two, (q - 1) as nat, g);
    assert(g * ((q - 1) as nat) == ((q - 1) as nat) * g) by (nonlinear_arith);
    lemma_fermat_for_two(q, v);
    lemma_congruent_power(two.power((q - 1) as nat), one, g, q as int);
    lemma_power_of_one(g, v);
    lemma_congruent_symmetric(root.power(2).power(h), two.power(h), q as int);
    lemma_congruent_transitive(two.power(h), root.power(2).power(h), one, q as int);
}

/// Modulo a Mersenne prime, minus three is a square: its power with half
/// the prime's predecessor as exponent is one.
pub proof fn lemma_minus_three_is_a_residue(p: nat)
    requires
        p > 2,
        is_prime(mersenne_number(p)),
    ensures
        (pow(-3, half_mersenne(p)) - 1) % mersenne_number(p) == 0,
{
    let q = mersenne_number(p) as nat;
    let h = half_mersenne(p);
    let v = -3int;
    let one = Surd::one(v);
    let two = Surd::integer(2, v);
    let minus = Surd::minus_one(v);
    let t = root_of(v);
    let eta = minus.plus(t);
    lemma_mersenne_number_bound(p);
    lemma_half_mersenne(p);
    lemma_prime_exponent_is_odd(p);
    // The cube of `sqrt(-3) - 1` is eight.
    assert(eta.power(0) == one);
    assert(eta.power(1) == one.times(eta));
    assert(eta.power(2) == eta.power(1).times(eta));
    assert(eta.power(3) == eta.power(2).times(eta));
    lemma_times_one(eta);
    assert(eta.times(eta) == (Surd { a: -2, b: -2, v })) by {
        assert((-1) * (-1) + (-3) * (1 * 1) == -2int) by (nonlinear_arith);
        assert((-1) * 1 + 1 * (-1) == -2int) by (nonlinear_arith);
    }
    assert((Surd { a: -2, b: -2, v }).times(eta) == Surd::integer(8, v)) by {
        assert((-2) * (-1) + (-3) * ((-2) * 1) == 8int) by (nonlinear_arith);
        assert((-2) * 1 + (-2) * (-1) == 0int) by (nonlinear_arith);
    }
    lemma_pow1(2);
    lemma_pow_adds(2, 1, 1);
    lemma_pow_adds(2, 2, 1);
    lemma_integer_power(2, v, 3);
    assert(eta.power(3) == two.power(3));
    // The predecessor of the prime is a multiple of three.
    let j = ((p - 1) / 2) as nat;
    assert(2 * j == p - 1);
    lemma_even_power_of_two(j);
    lemma_fundamental_div_mod(h as int, 3);
    let third = (h / 3) as nat;
    let k = 2 * third;
    assert(3 * k == q - 1);
    // So the power with the prime as exponent is the number itself.
    lemma_power_multiplies(eta, 3, k);
    lemma_power_multiplies(two, 3, k);
    lemma_fermat_for_two(q, v);
    assert(eta.power(q) == eta.power((q - 1) as nat).times(eta));
    lemma_power_root(two, (q - 1) as nat);
    lemma_congruent_times(two.power((q - 1) as nat), one, eta, q as int);
    assert(eta.power(q).congruent(eta, q as int));
    // It is also what the powers of its two parts add up to.
    lemma_power_of_sum(minus, t, q);
    lemma_odd_power_of_minus_one(q, v);
    lemma_odd_power_of_root(v, h);
    assert(2 * h + 1 == q);
    lemma_congruent_symmetric(eta.power(q), minus.power(q).plus(t.power(q)), q as int);
    lemma_congruent_transitive(minus.power(q).plus(t.power(q)), eta.power(q), eta, q as int);
}

/// Modulo a Mersenne prime, three is not a square: its power with half the
/// prime's predecessor as exponent is minus one.
pub proof fn lemma_three_is_no_residue(p: nat)
    requires
        p > 2,
        is_prime(mersenne_number(p)),
    ensures
        (pow(3, half_mersenne(p)) + 1) % mersenne_number(p) == 0,
{
    let q = mersenne_number(p);
    let h = half_mersenne(p);
    lemma_mersenne_number_bound(p);
    lemma_half_mersenne(p);
    lemma_minus_three_is_a_residue(p);
    lemma_pow_adds(2, 1, (p - 2) as nat);
    lemma_pow1(2);
    assert(h % 2 == 1) by {
        assert(h + 1 == 2 * pow(2, (p - 2) as nat));
    }
    lemma_odd_power_of_negative(3, h);
    lemma_combination_is_multiple(q, pow(-3, h) - 1, -1, 0, 0);
    lemma_small_mod(0, q as nat);
    assert((pow(-3, h) - 1) * (-1) + 0 * 0 == pow(3, h) + 1) by (nonlinear_arith)
        requires
            pow(-3, h) == -pow(3, h),
    ;
}

/// Modulo a Mersenne prime with exponent `p`, the power of `2 + sqrt(3)`
/// with exponent `2^(p-1)` is minus one.
pub proof fn lemma_prime_power_is_minus_one(p: nat)
    requires
        p > 2,
        is_prime(mersenne_number(p)),
    ensures
        omega_power((p - 1) as nat).congruent(Surd::minus_one(3), mersenne_number(p)),
{
    let q = mersenne_number(p) as nat;
    let m = q as int;
    let h = half_mersenne(p);
    let v = 3int;
    let one = Surd::one(v);
    let two = Surd::integer(2, v);
    let minus = Surd::minus_one(v);
    let omega = Surd::omega();
    let t = root_of(v);
    let u = one.plus(t);
    let w = Surd { a: 1, b: -1, v };
    lemma_mersenne_number_bound(p);
    lemma_half_mersenne(p);
    // The power of `1 + sqrt(3)` with the prime as exponent is `1 - sqrt(3)`.
    lemma_power_of_sum(one, t, q);
    lemma_power_of_one(q, v);
    lemma_odd_power_of_root(v, h);
    lemma_three_is_no_residue(p);
    lemma_small_mod(0, q);
    assert(one.power(q).plus(t.power(q)).congruent(w, m));
    lemma_congruent_transitive(u.power(q), one.power(q).plus(t.power(q)), w, m);
    // So the next power is minus two.
    lemma_power_root(u, q);
    lemma_congruent_times(u.power(q), w, u, m);
    assert(w.times(u) == Surd::integer(-2, v)) by {
        assert(1 * 1 + 3 * ((-1) * 1) == -2int) by (nonlinear_arith);
        assert(1 * 1 + (-1) * 1 == 0int) by (nonlinear_arith);
    }
    assert(u.power(q + 1) == u.power(q).times(u));
    // That power is also a power of the square, which is twice `2 + sqrt(3)`.
    let top = (h + 1) as nat;
    assert(u.power(0) == one);
    assert(u.power(1) == one.times(u));
    assert(u.power(2) == u.power(1).times(u));
    lemma_times_one(u);
    assert(u.times(u) == two.times(omega)) by {
        assert(1 * 1 + 3 * (1 * 1) == 4int) by (nonlinear_arith);
        assert(1 * 1 + 1 * 1 == 2int) by (nonlinear_arith);
        assert(2 * 2 + 3 * (0 * 1) == 4int) by (nonlinear_arith);
        assert(2 * 1 + 0 * 2 == 2int) by (nonlinear_arith);
    }
    lemma_power_multiplies(u, 2, top);
    assert(2 * top == q + 1);
    lemma_power_of_product(two, omega, top);
    // The power of two in it is two.
    lemma_two_is_a_residue(p, v);
    assert(two.power(top) == two.power(h).times(two));
    lemma_power_root(two, h);
    lemma_congruent_times(two.power(h), one, two, m);
    lemma_times_one(two);
    lemma_power_root(omega, top);
    lemma_congruent_times(two.power(top), two, omega.power(top), m);
    // So twice the power in question is minus two.
    let doubled = two.times(omega.power(top));
    lemma_congruent_symmetric(u.power(q + 1), doubled, m);
    lemma_congruent_transitive(doubled, u.power(q + 1), Surd::integer(-2, v), m);
    assert(two.times(minus) == Surd::integer(-2, v)) by {
        assert(2 * (-1) + 3 * (0 * 0) == -2int) by (nonlinear_arith);
        assert(2 * 0 + 0 * (-1) == 0int) by (nonlinear_arith);
    }
    lemma_cancel_two(omega.power(top), minus, m);
}

/// Where that power is minus one modulo a Mersenne prime, the test passes.
pub proof fn lemma_minus_one_passes(p: nat)
    requires
        p > 2,
        is_prime(mersenne_number(p)),
        omega_power((p - 1) as nat).congruent(Surd::minus_one(3), mersenne_number(p)),
    ensures
        lucas_lehmer(p),
{
    let m = mersenne_number(p);
    let k = (p - 2) as nat;
    let x = omega_power(k);
    let r = lucas_lehmer_residue(p, k);
    lemma_mersenne_number_bound(p);
    lemma_half_mersenne(p);
    lemma_omega_power_squares(k);
    lemma_term_is_trace(k);
    lemma_residue_is_term(p, k);
    let square = x.a * x.a;
    assert((2 * square) % m == 0) by {
        assert(x.times(x).a - (-1) == 2 * square) by (nonlinear_arith)
            requires
                x.times(x).a == x.a * x.a + 3 * (x.b * x.b),
                x.a * x.a - 3 * (x.b * x.b) == 1,
                square == x.a * x.a,
        ;
    }
    lemma_odd_divisor(m, square);
    lemma_prime_divides_factor(m, x.a, x.a);
    lemma_combination_is_multiple(m, x.a, 2, r - lucas_term(k), 1);
    assert(x.a * 2 + (r - lucas_term(k)) * 1 == r) by (nonlinear_arith)
        requires
            lucas_term(k) == 2 * x.a,
    ;
}

/// A Mersenne prime passes: where the Mersenne number with an exponent
/// above 2 is prime, the Lucas-Lehmer test succeeds for that exponent.
pub proof fn lemma_lucas_lehmer_complete(p: nat)
    requires
        p > 2,
        is_prime(mersenne_number(p)),
    ensures
        lucas_lehmer(p),
{
    lemma_prime_power_is_minus_one(p);
    lemma_minus_one_passes(p);
}

/// The Lucas-Lehmer test decides whether a Mersenne number is prime: for
/// every exponent above 2 the test succeeds exactly when the Mersenne number
/// with that exponent is prime.
pub proof fn lemma_lucas_lehmer_decides(p: nat)
    requires
        p > 2,
    ensures
        lucas_lehmer(p) == is_prime(mersenne_number(p)),
{
    if lucas_lehmer(p) {
        lemma_lucas_lehmer_sound(p);
    }
    if is_prime(mersenne_number(p)) {
        lemma_lucas_lehmer_complete(p);
    }
}

/// What the test says of every exponent that it accepts: it succeeds
/// exactly for the exponents above 2 whose Mersenne number is prime.
pub proof fn lemma_verdict(p: nat)
    requires
        p >= 2,
    ensures
        lucas_lehmer(p) == (p > 2 && is_prime(mersenne_number(p))),
{
    if p > 2 {
        lemma_lucas_lehmer_decides(p);
    } else {
        lemma_exponent_two_fails();
    }
}

} // verus!
