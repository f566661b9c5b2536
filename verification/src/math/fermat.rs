//! Fermat's little theorem
//!
//! For a prime `p` and a number `a` that `p` does not divide,
//! `a^(p - 1)` is `1` modulo `p`. So `a^(p - 2)` is the inverse of `a`
//! modulo `p`, and exponents can be reduced modulo `p - 1`.
//!
//! The proof here goes by the binomial theorem: `p` divides the binomial
//! coefficients `C(p, k)` for `0 < k < p`, so `(a + 1)^p` is `a^p + 1`
//! modulo `p`, and `a^p` is `a` modulo `p` by induction on `a`.

use vstd::arithmetic::div_mod;
use vstd::arithmetic::power;
use vstd::prelude::*;

use crate::math::gcd;
use crate::math::prime;

verus! {

/// The binomial coefficient `C(n, k)`, by Pascal's rule.
pub open spec fn binomial(n: nat, k: nat) -> nat
    decreases n,
{
    if k == 0 {
        1
    } else if n == 0 {
        0
    } else {
        binomial((n - 1) as nat, (k - 1) as nat) + binomial((n - 1) as nat, k)
    }
}

/// `C(n, k)` is zero for `k > n`, and `C(n, n)` is one.
pub proof fn lemma_binomial_edge(n: nat, k: nat)
    ensures
        k > n ==> binomial(n, k) == 0,
        binomial(n, n) == 1,
        binomial(n, 0) == 1,
    decreases n,
{
    if n > 0 {
        if k > 0 {
            lemma_binomial_edge((n - 1) as nat, (k - 1) as nat);
        }
        lemma_binomial_edge((n - 1) as nat, k);
        lemma_binomial_edge((n - 1) as nat, n);
    }
}

/// The absorption identity: `(k + 1) * C(n + 1, k + 1) = (n + 1) * C(n, k)`.
pub proof fn lemma_absorption(n: nat, k: nat)
    ensures
        (k + 1) * binomial(n + 1, k + 1) == (n + 1) * binomial(n, k),
    decreases n,
{
    let c = binomial(n, k) as int;
    let d = binomial(n, k + 1) as int;
    assert(binomial(n + 1, k + 1) == c + d);
    if n == 0 {
        lemma_binomial_edge(0, k);
        lemma_binomial_edge(0, k + 1);
        assert((k + 1) * (c + d) == (n + 1) * c) by (nonlinear_arith)
            requires
                d == 0,
                n == 0,
                k > 0 ==> c == 0,
        ;
    } else {
        let m = (n - 1) as nat;
        // (k + 1) * C(n, k + 1) = n * C(n - 1, k)
        lemma_absorption(m, k);
        let e = binomial(m, k) as int;
        if k == 0 {
            lemma_binomial_edge(n, 0);
            lemma_binomial_edge(m, 0);
            assert((k + 1) * (c + d) == (n + 1) * c) by (nonlinear_arith)
                requires
                    k == 0,
                    c == 1,
                    e == 1,
                    (k + 1) * d == n * e,
            ;
        } else {
            // k * C(n, k) = n * C(n - 1, k - 1)
            lemma_absorption(m, (k - 1) as nat);
            let f = binomial(m, (k - 1) as nat) as int;
            assert(c == f + e);
            assert((k + 1) * (c + d) == (n + 1) * c) by (nonlinear_arith)
                requires
                    c == f + e,
                    (k + 1) * d == n * e,
                    k * c == n * f,
            ;
        }
    }
}

/// A prime that divides a product divides one of the factors.
pub proof fn lemma_prime_divides_product(p: nat, a: int, b: int)
    requires
        prime::is_prime_number(p),
        a >= 0,
        (a * b) % (p as int) == 0,
    ensures
        a % (p as int) == 0 || b % (p as int) == 0,
{
    if a % (p as int) != 0 {
        // the greatest common divisor of `p` and `a` divides `p`, and is not `p`
        let g = gcd::gcd_of(p, a as nat);
        gcd::lemma_gcd_of(p, a as nat);
        assert(gcd::is_common_divisor(g, p, a as nat));
        assert(g == 1) by {
            gcd::lemma_divisor_bound(g, p);
            if 1 < g < p {
                assert(p % g != 0);
            }
        }
        let (x, y) = gcd::lemma_bezout(p, a as nat);
        gcd::lemma_euclid(p as int, a, b, x, y);
    }
}

/// A prime `p` divides `C(p, k)` for `0 < k < p`.
pub proof fn lemma_prime_divides_binomial(p: nat, k: nat)
    requires
        prime::is_prime_number(p),
        0 < k < p,
    ensures
        binomial(p, k) % p == 0,
{
    lemma_absorption((p - 1) as nat, (k - 1) as nat);
    let c = binomial(p, k) as int;
    let d = binomial((p - 1) as nat, (k - 1) as nat) as int;
    assert(k * c == d * p) by (nonlinear_arith)
        requires
            k * c == p * d,
    ;
    gcd::lemma_multiple(d, p as int);
    div_mod::lemma_small_mod(k, p);
    lemma_prime_divides_product(p, k as int, c);
}

/// The sum of `C(n, k) * a^k` for `k` in `0 ..= j`.
pub open spec fn binomial_sum(n: nat, a: int, j: nat) -> int
    decreases j,
{
    binomial(n, j) * power::pow(a, j) + if j == 0 {
        0
    } else {
        binomial_sum(n, a, (j - 1) as nat)
    }
}

/// Multiplying a partial sum of the binomial expansion of `(a + 1)^n` by
/// `a + 1` gives the partial sum for `n + 1`, and one term beyond.
proof fn lemma_binomial_step(n: nat, a: int, j: nat)
    ensures
        (a + 1) * binomial_sum(n, a, j) == binomial_sum(n + 1, a, j) + binomial(n, j) * power::pow(
            a,
            j + 1,
        ),
    decreases j,
{
    let c = binomial(n, j) as int;
    let x = power::pow(a, j);
    power::lemma_pow1(a);
    power::lemma_pow_adds(a, j, 1);
    assert(power::pow(a, j + 1) == x * a);
    if j == 0 {
        lemma_binomial_edge(n, 0);
        lemma_binomial_edge(n + 1, 0);
        power::lemma_pow0(a);
        assert((a + 1) * (c * x) == 1 * x + c * (x * a)) by (nonlinear_arith)
            requires
                c == 1,
                x == 1,
        ;
    } else {
        let i = (j - 1) as nat;
        lemma_binomial_step(n, a, i);
        let b = binomial(n, i) as int;
        let s = binomial_sum(n, a, i);
        let t = binomial_sum(n + 1, a, i);
        assert(binomial(n + 1, j) == b + c);
        assert(power::pow(a, i + 1) == x);
        assert((a + 1) * (c * x + s) == ((b + c) * x + t) + c * (x * a)) by (nonlinear_arith)
            requires
                (a + 1) * s == t + b * x,
        ;
    }
}

/// The binomial theorem: `(a + 1)^n` is the sum of `C(n, k) * a^k` for
/// `k` in `0 ..= n`.
pub proof fn lemma_binomial_theorem(n: nat, a: int)
    ensures
        power::pow(a + 1, n) == binomial_sum(n, a, n),
    decreases n,
{
    if n == 0 {
        power::lemma_pow0(a + 1);
        power::lemma_pow0(a);
        lemma_binomial_edge(0, 0);
        assert(1 * 1 == 1);
    } else {
        let m = (n - 1) as nat;
        lemma_binomial_theorem(m, a);
        lemma_binomial_step(m, a, m);
        power::lemma_pow1(a + 1);
        power::lemma_pow_adds(a + 1, m, 1);
        lemma_binomial_edge(m, m);
        lemma_binomial_edge(n, n);
        let s = binomial_sum(m, a, m);
        assert(power::pow(a + 1, n) == s * (a + 1));
        assert(s * (a + 1) == (a + 1) * s) by (nonlinear_arith);
    }
}

/// Modulo a prime `p`, the partial sums of the binomial expansion of
/// `(a + 1)^p` below the last term are all `1`.
proof fn lemma_binomial_sum_mod(p: nat, a: int, j: nat)
    requires
        prime::is_prime_number(p),
        j < p,
    ensures
        binomial_sum(p, a, j) % (p as int) == 1,
    decreases j,
{
    let m = p as int;
    if j == 0 {
        lemma_binomial_edge(p, 0);
        power::lemma_pow0(a);
        assert(1 * 1 == 1);
        div_mod::lemma_small_mod(1, p);
    } else {
        lemma_binomial_sum_mod(p, a, (j - 1) as nat);
        lemma_prime_divides_binomial(p, j);
        let c = binomial(p, j) as int;
        let x = power::pow(a, j);
        div_mod::lemma_mul_mod_noop_general(c, x, m);
        assert(0 * x == 0);
        div_mod::lemma_small_mod(0, p);
        div_mod::lemma_add_mod_noop(c * x, binomial_sum(p, a, (j - 1) as nat), m);
        div_mod::lemma_small_mod(1, p);
    }
}

/// Fermat's little theorem: `a^p` is `a` modulo a prime `p`.
pub proof fn lemma_fermat_power(p: nat, a: nat)
    requires
        prime::is_prime_number(p),
    ensures
        power::pow(a as int, p) % (p as int) == a % p,
    decreases a,
{
    let m = p as int;
    if a == 0 {
        power::lemma0_pow(p);
        div_mod::lemma_small_mod(0, p);
    } else {
        let b = (a - 1) as int;
        lemma_fermat_power(p, (a - 1) as nat);
        lemma_binomial_theorem(p, b);
        lemma_binomial_sum_mod(p, b, (p - 1) as nat);
        lemma_binomial_edge(p, p);
        let x = power::pow(b, p);
        let s = binomial_sum(p, b, (p - 1) as nat);
        assert(binomial_sum(p, b, p) == 1 * x + s);
        // (b + 1)^p = b^p + s, with b^p = b and s = 1 modulo p
        div_mod::lemma_add_mod_noop(x, s, m);
        div_mod::lemma_add_mod_noop(b, 1, m);
        div_mod::lemma_small_mod(1, p);
        div_mod::lemma_mod_twice(b, m);
    }
}

/// Fermat's little theorem: `a^(p - 1)` is `1` modulo a prime `p` that
/// does not divide `a`.
pub proof fn lemma_fermat(p: nat, a: nat)
    requires
        prime::is_prime_number(p),
        a % p != 0,
    ensures
        power::pow(a as int, (p - 1) as nat) % (p as int) == 1,
{
    let m = p as int;
    let x = power::pow(a as int, (p - 1) as nat);
    lemma_fermat_power(p, a);
    power::lemma_pow1(a as int);
    power::lemma_pow_adds(a as int, 1, (p - 1) as nat);
    div_mod::lemma_small_mod(0, p);
    // p divides a * x - a = a * (x - 1)
    assert(a * (x - 1) == a * x - a) by (nonlinear_arith);
    div_mod::lemma_mod_equivalence(a * x, a as int, m);
    lemma_prime_divides_product(p, a as int, x - 1);
    div_mod::lemma_mod_equivalence(x, 1, m);
    div_mod::lemma_small_mod(1, p);
}

/// Modulo a prime `p` that does not divide `a`, the exponent of a power
/// of `a` can be reduced modulo `p - 1`.
pub proof fn lemma_reduce_exponent(p: nat, a: nat, n: nat)
    requires
        prime::is_prime_number(p),
        a % p != 0,
    ensures
        power::pow(a as int, n) % (p as int) == power::pow(
            a as int,
            (n as int % (p - 1)) as nat,
        ) % (p as int),
    decreases n,
{
    let m = p as int;
    let period = (p - 1) as nat;
    if n < period {
        div_mod::lemma_small_mod(n, period);
    } else {
        let rest = (n - period) as nat;
        lemma_reduce_exponent(p, a, rest);
        lemma_fermat(p, a);
        power::lemma_pow_adds(a as int, period, rest);
        let x = power::pow(a as int, period);
        let y = power::pow(a as int, rest);
        div_mod::lemma_mul_mod_noop_general(x, y, m);
        assert(1 * y == y);
        div_mod::lemma_mod_sub_multiples_vanish(n as int, period as int);
    }
}

} // verus!
