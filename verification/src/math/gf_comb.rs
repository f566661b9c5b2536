//! Combinatorics
//!
//! Combinatorial numbers in modular arithmetic, from tables of factorials.
//!
//! - [`Comb::factorial`]: `n!`
//! - [`Comb::inv_factorial`]: `(n!)^(-1)`
//! - [`Comb::binom`]: the binomial coefficient `C(n, r)`
//! - [`Comb::perm`]: the number of permutations `P(n, r)`
//! - [`Comb::multinom`]: the multinomial coefficient
//! - [`Comb::homogeneous`]: the homogeneous product (stars and bars)

use vstd::arithmetic::div_mod;
use vstd::arithmetic::power;
use vstd::prelude::*;

use crate::math::fermat;
use crate::math::gf;
use crate::math::gf::GF;
use crate::math::prime;

verus! {

/// `n! = 1 * 2 * .. * n`, with `0! = 1`.
pub open spec fn factorial(n: nat) -> nat
    decreases n,
{
    if n == 0 {
        1
    } else {
        n * factorial((n - 1) as nat)
    }
}

/// The entry for `i` in a table of inverse factorials modulo `m` that
/// reaches up to `top`: the inverse of `top!` as [`GF::inv`] gives it,
/// times `top * (top - 1) * .. * (i + 1)`.
pub open spec fn inverse_factorial(i: nat, top: nat, m: nat) -> nat
    decreases top - i,
{
    if i >= top {
        gf::inverse_mod(factorial(top) % m, m)
    } else {
        (inverse_factorial(i + 1, top, m) * (i + 1)) % m
    }
}

/// The product of the entries for the numbers of `ks` in a table of
/// inverse factorials modulo `m` that reaches up to `top`, times `start`.
pub open spec fn multinomial(start: nat, ks: Seq<u32>, top: nat, m: nat) -> nat
    decreases ks.len(),
{
    if ks.len() == 0 {
        start % m
    } else {
        (multinomial(start, ks.drop_last(), top, m) * inverse_factorial(ks.last() as nat, top, m))
            % m
    }
}

/// For a prime modulus `m` that does not divide `top!`, the product of
/// `start` and the entries of the table of inverse factorials for the
/// numbers of `ks`, times the factorials of those numbers, is `start`.
pub proof fn lemma_multinomial_mod(start: nat, ks: Seq<u32>, top: nat, m: nat)
    requires
        prime::is_prime_number(m),
        factorial(top) % m != 0,
        forall|i: int| 0 <= i < ks.len() ==> #[trigger] ks[i] <= top,
    ensures
        (multinomial(start, ks, top, m) * factorials(ks)) % m == start % m,
    decreases ks.len(),
{
    let mi = m as int;
    if ks.len() == 0 {
        div_mod::lemma_mod_twice(start as int, mi);
        assert((start % m) * 1 == start % m);
    } else {
        let rest = ks.drop_last();
        let k = ks.last() as nat;
        lemma_multinomial_mod(start, rest, top, m);
        lemma_inverse_factorial(k, top, m);
        let v = multinomial(start, rest, top, m) as int;
        let i = inverse_factorial(k, top, m) as int;
        let f = factorial(k) as int;
        let g = factorials(rest) as int;
        // ((v * i) % m) * (g * f) = (v * g) * (i * f) = v * g = start, modulo m
        div_mod::lemma_mul_mod_noop_general(v * i, g * f, mi);
        assert((v * i) * (g * f) == (v * g) * (i * f)) by (nonlinear_arith);
        div_mod::lemma_mul_mod_noop_general(v * g, i * f, mi);
        assert((v * g) * 1 == v * g);
        div_mod::lemma_mod_twice(v * g, mi);
    }
}

/// The sum of the numbers of `ks`.
pub open spec fn total(ks: Seq<u32>) -> nat
    decreases ks.len(),
{
    if ks.len() == 0 {
        0
    } else {
        total(ks.drop_last()) + ks.last() as nat
    }
}

/// No number of a sequence exceeds the sum of the sequence.
pub proof fn lemma_total_bound(ks: Seq<u32>, i: int)
    requires
        0 <= i < ks.len(),
    ensures
        ks[i] <= total(ks),
    decreases ks.len(),
{
    if i < ks.len() - 1 {
        lemma_total_bound(ks.drop_last(), i);
    }
}

/// The product of the factorials of the numbers of `ks`.
pub open spec fn factorials(ks: Seq<u32>) -> nat
    decreases ks.len(),
{
    if ks.len() == 0 {
        1
    } else {
        factorials(ks.drop_last()) * factorial(ks.last() as nat)
    }
}

/// `C(n, k) * k! * (n - k)! = n!`.
pub proof fn lemma_binomial_factorials(n: nat, k: nat)
    requires
        k <= n,
    ensures
        fermat::binomial(n, k) * factorial(k) * factorial((n - k) as nat) == factorial(n),
    decreases k,
{
    let c = fermat::binomial(n, k) as int;
    let b = factorial((n - k) as nat) as int;
    if k == 0 {
        fermat::lemma_binomial_edge(n, 0);
        let a = factorial(0) as int;
        assert(c * a * b == b) by (nonlinear_arith)
            requires
                c == 1,
                a == 1,
        ;
    } else {
        let d = fermat::binomial((n - 1) as nat, (k - 1) as nat) as int;
        let a = factorial((k - 1) as nat) as int;
        fermat::lemma_absorption((n - 1) as nat, (k - 1) as nat);
        lemma_binomial_factorials((n - 1) as nat, (k - 1) as nat);
        assert(c * (k * a) * b == n * (d * a * b)) by (nonlinear_arith)
            requires
                k * c == n * d,
        ;
    }
}

/// For a prime modulus `m` that does not divide `top!`, the entry for
/// `i` in the table of inverse factorials is the inverse of `i!`.
pub proof fn lemma_inverse_factorial(i: nat, top: nat, m: nat)
    requires
        prime::is_prime_number(m),
        factorial(top) % m != 0,
        i <= top,
    ensures
        (inverse_factorial(i, top, m) * factorial(i)) % m == 1,
        inverse_factorial(i, top, m) < m,
    decreases top - i,
{
    if i == top {
        let a = factorial(top) % m;
        div_mod::lemma_mod_twice(factorial(top) as int, m as int);
        gf::lemma_inverse_mod(a, m);
        div_mod::lemma_mul_mod_noop_general(
            inverse_factorial(i, top, m) as int,
            factorial(top) as int,
            m as int,
        );
    } else {
        lemma_inverse_factorial(i + 1, top, m);
        let next = inverse_factorial(i + 1, top, m) as int;
        let f = factorial(i) as int;
        div_mod::lemma_mul_mod_noop_general(next * (i + 1), f, m as int);
        assert((next * (i + 1)) * f == next * ((i + 1) * f)) by (nonlinear_arith);
        div_mod::lemma_mod_bound(next * (i + 1), m as int);
    }
}

/// Modulo `m`, a number `v` that is `x` times the inverse of `d` is `c`,
/// where `c * d` is `x`.
proof fn lemma_cancel(v: int, c: int, d: int, inverse: int, x: int, m: int)
    requires
        m > 0,
        c * d == x,
        (inverse * d) % m == 1,
        v % m == (x * inverse) % m,
    ensures
        v % m == c % m,
{
    div_mod::lemma_mul_mod_noop_general(c, inverse * d, m);
    assert(c * (d * inverse) == (c * d) * inverse && inverse * d == d * inverse)
        by (nonlinear_arith);
    assert(c * 1 == c);
}

/// For a prime modulus `m` that does not divide `top!`, the product of
/// `n!` and the entries of the table of inverse factorials for `r` and
/// `n - r` is the binomial coefficient `C(n, r)` modulo `m`, and the
/// product of `n!` and the entry for `n - r` alone is `C(n, r) * r!`.
pub proof fn lemma_binomial_mod(n: nat, r: nat, top: nat, m: nat)
    requires
        prime::is_prime_number(m),
        factorial(top) % m != 0,
        r <= n <= top,
    ensures
        (((factorial(n) % m) * inverse_factorial(r, top, m)) % m * inverse_factorial(
            (n - r) as nat,
            top,
            m,
        )) % m == fermat::binomial(n, r) % m,
        ((factorial(n) % m) * inverse_factorial((n - r) as nat, top, m)) % m == (fermat::binomial(
            n,
            r,
        ) * factorial(r)) % m,
{
    let mi = m as int;
    let x = factorial(n) as int;
    let a = factorial(r) as int;
    let b = factorial((n - r) as nat) as int;
    let ia = inverse_factorial(r, top, m) as int;
    let ib = inverse_factorial((n - r) as nat, top, m) as int;
    let c = fermat::binomial(n, r) as int;
    lemma_binomial_factorials(n, r);
    lemma_inverse_factorial(r, top, m);
    lemma_inverse_factorial((n - r) as nat, top, m);
    // the permutations: x * ib = (c * a) * (b * ib)
    div_mod::lemma_mul_mod_noop_general(x, ib, mi);
    assert(c * a * b == (c * a) * b);
    lemma_cancel(x * ib, c * a, b, ib, x, mi);
    // the binomial coefficient: (x * ia) * ib = c * (a * ia) * (b * ib)
    let v = ((x % mi) * ia) % mi;
    div_mod::lemma_mul_mod_noop_general(x, ia, mi);
    div_mod::lemma_mul_mod_noop_general(x * ia, ib, mi);
    assert((x * ia) * ib == (x * ib) * ia) by (nonlinear_arith);
    div_mod::lemma_mul_mod_noop_general(x * ib, ia, mi);
    div_mod::lemma_mul_mod_noop_general(c * a, ia, mi);
    lemma_cancel((c * a) * ia, c, a, ia, c * a, mi);
}

/// Tables of factorials and inverse factorials modulo a prime `MOD`, for
/// the numbers below a limit.
///
/// # Requirements
///
/// **`MOD` must be prime** for the inverse factorials to be inverses.
#[derive(Clone)]
pub struct Comb<const MOD: u32> {
    /// The limit: the tables hold the entries for `0 .. n`.
    n: u32,
    /// `fact[i] = i! mod MOD`
    fact: Vec<GF<MOD>>,
    /// `inv_fact[i] = (i!)^(-1) mod MOD`
    inv_fact: Vec<GF<MOD>>,
}

impl<const MOD: u32> Comb<MOD> {
    /// The limit below which the tables hold an entry.
    pub closed spec fn limit(&self) -> nat {
        self.n as nat
    }

    /// The representation invariant: the tables hold what their
    /// declaration says.
    pub closed spec fn wf(&self) -> bool {
        &&& MOD >= 2
        &&& self.n >= 1
        &&& factorial((self.n - 1) as nat) % (MOD as nat) != 0
        &&& self.fact@.len() == self.n
        &&& self.inv_fact@.len() == self.n
        &&& forall|i: int| 0 <= i < self.n ==> (#[trigger] self.fact@[i])@ == factorial(i as nat) % (MOD as nat)
        &&& forall|i: int|
            0 <= i < self.n ==> (#[trigger] self.inv_fact@[i])@ == inverse_factorial(
                i as nat,
                (self.n - 1) as nat,
                MOD as nat,
            )
    }

    /// Creates the tables for the numbers below `n`.
    ///
    /// ## Complexity
    ///
    /// `O(n)`
    pub fn build(n: u32) -> (comb: Self)
        requires
            n >= 1,
            MOD >= 2,
            factorial((n - 1) as nat) % (MOD as nat) != 0,
        ensures
            comb.wf(),
            comb.limit() == n,
    {
        let ghost m = MOD as nat;
        let ghost top = (n - 1) as nat;
        let mut fact: Vec<GF<MOD>> = Vec::with_capacity(n as usize);
        fact.push(GF::<MOD>::new(1));
        proof {
            div_mod::lemma_small_mod(1, m);
        }
        let mut i: u32 = 1;
        while i < n
            invariant
                MOD >= 2,
                m == MOD,
                1 <= i <= n,
                fact@.len() == i,
                forall|j: int| 0 <= j < i ==> (#[trigger] fact@[j])@ == factorial(j as nat) % m,
            decreases n - i,
        {
            let next = fact[(i - 1) as usize] * GF::<MOD>::new(i);
            proof {
                let f = factorial((i - 1) as nat) as int;
                div_mod::lemma_mul_mod_noop_general(f, i as int, m as int);
                assert(f * i == i * f) by (nonlinear_arith);
            }
            fact.push(next);
            i += 1;
        }
        let mut inv_fact: Vec<GF<MOD>> = Vec::with_capacity(n as usize);
        inv_fact.push(fact[(n - 1) as usize].inv());
        let mut i: u32 = n - 1;
        while i > 0
            invariant
                MOD >= 2,
                m == MOD,
                top == n - 1,
                i < n,
                inv_fact@.len() == n - i,
                forall|j: int|
                    0 <= j < n - i ==> (#[trigger] inv_fact@[j])@ == inverse_factorial(
                        (n - 1 - j) as nat,
                        top,
                        m,
                    ),
            decreases i,
        {
            let next = inv_fact[(n - 1 - i) as usize] * GF::<MOD>::new(i);
            proof {
                let f = inverse_factorial(i as nat, top, m) as int;
                div_mod::lemma_mul_mod_noop_general(f, i as int, m as int);
            }
            inv_fact.push(next);
            i -= 1;
        }
        inv_fact.reverse();
        Self { n, fact, inv_fact }
    }

    /// Returns the factorial `n!` modulo `MOD`.
    ///
    /// ## Complexity
    ///
    /// `O(1)`
    #[inline]
    pub fn factorial(&self, n: u32) -> (f: GF<MOD>)
        requires
            self.wf(),
            n < self.limit(),
        ensures
            f@ == factorial(n as nat) % (MOD as nat),
    {
        self.fact[n as usize]
    }

    /// Returns the entry for `n` in the table of inverse factorials.
    ///
    /// ## Complexity
    ///
    /// `O(1)`
    #[inline]
    pub fn inv_factorial(&self, n: u32) -> (f: GF<MOD>)
        requires
            self.wf(),
            n < self.limit(),
        ensures
            f@ == inverse_factorial(n as nat, (self.limit() - 1) as nat, MOD as nat),
            prime::is_prime_number(MOD as nat) ==> (f@ * factorial(n as nat)) % (MOD as nat) == 1,
    {
        proof {
            if prime::is_prime_number(MOD as nat) {
                lemma_inverse_factorial(n as nat, (self.n - 1) as nat, MOD as nat);
            }
        }
        self.inv_fact[n as usize]
    }

    /// Returns the binomial coefficient `C(n, r) = n! / (r! * (n-r)!)`
    /// modulo `MOD`, as the product of `n!` and the table entries for the
    /// inverses of `r!` and `(n-r)!`.
    ///
    /// ## Complexity
    ///
    /// `O(1)`
    #[inline]
    pub fn binom(&self, n: u32, r: u32) -> (c: GF<MOD>)
        requires
            self.wf(),
            n < self.limit(),
            r <= n,
        ensures
            c@ == (((factorial(n as nat) % (MOD as nat)) * inverse_factorial(
                r as nat,
                (self.limit() - 1) as nat,
                MOD as nat,
            )) % (MOD as nat) * inverse_factorial(
                (n - r) as nat,
                (self.limit() - 1) as nat,
                MOD as nat,
            )) % (MOD as nat),
            prime::is_prime_number(MOD as nat) ==> c@ == fermat::binomial(n as nat, r as nat) % (
            MOD as nat),
    {
        proof {
            if prime::is_prime_number(MOD as nat) {
                lemma_binomial_mod(n as nat, r as nat, (self.n - 1) as nat, MOD as nat);
            }
        }
        self.fact[n as usize] * self.inv_fact[r as usize] * self.inv_fact[(n - r) as usize]
    }

    /// Returns the number of permutations `P(n, r) = n! / (n-r)!` modulo
    /// `MOD`, as the product of `n!` and the table entry for the inverse of
    /// `(n-r)!`.
    ///
    /// ## Complexity
    ///
    /// `O(1)`
    #[inline]
    pub fn perm(&self, n: u32, r: u32) -> (c: GF<MOD>)
        requires
            self.wf(),
            n < self.limit(),
            r <= n,
        ensures
            c@ == ((factorial(n as nat) % (MOD as nat)) * inverse_factorial(
                (n - r) as nat,
                (self.limit() - 1) as nat,
                MOD as nat,
            )) % (MOD as nat),
            prime::is_prime_number(MOD as nat) ==> c@ == (fermat::binomial(n as nat, r as nat)
                * factorial(r as nat)) % (MOD as nat),
    {
        proof {
            if prime::is_prime_number(MOD as nat) {
                lemma_binomial_mod(n as nat, r as nat, (self.n - 1) as nat, MOD as nat);
            }
        }
        self.fact[n as usize] * self.inv_fact[(n - r) as usize]
    }

    /// Returns the multinomial coefficient `n! / (k1! * k2! * .. * km!)`
    /// modulo `MOD`, as the product of `n!` and the table entries for the
    /// inverses of the `ki!`.
    ///
    /// ## Complexity
    ///
    /// `O(m)` where `m` is the length of `ks`
    #[inline]
    pub fn multinom(&self, n: u32, ks: &[u32]) -> (c: GF<MOD>)
        requires
            self.wf(),
            n < self.limit(),
            total(ks@) == n,
        ensures
            c@ == multinomial(factorial(n as nat), ks@, (self.limit() - 1) as nat, MOD as nat),
            prime::is_prime_number(MOD as nat) ==> (c@ * factorials(ks@)) % (MOD as nat)
                == factorial(n as nat) % (MOD as nat),
    {
        proof {
            if prime::is_prime_number(MOD as nat) {
                assert forall|i: int| 0 <= i < ks@.len() implies #[trigger] ks@[i] < self.n by {
                    lemma_total_bound(ks@, i);
                }
                lemma_multinomial_mod(
                    factorial(n as nat),
                    ks@,
                    (self.n - 1) as nat,
                    MOD as nat,
                );
            }
        }
        let mut res = self.fact[n as usize];
        let mut i: usize = 0;
        proof {
            div_mod::lemma_mod_twice(factorial(n as nat) as int, MOD as int);
            assert(ks@.subrange(0, 0) =~= Seq::<u32>::empty());
        }
        while i < ks.len()
            invariant
                self.wf(),
                n < self.limit(),
                total(ks@) == n,
                i <= ks@.len(),
                res@ == multinomial(
                    factorial(n as nat),
                    ks@.subrange(0, i as int),
                    (self.limit() - 1) as nat,
                    MOD as nat,
                ),
            decreases ks@.len() - i,
        {
            proof {
                lemma_total_bound(ks@, i as int);
                assert(ks@.subrange(0, i + 1).drop_last() =~= ks@.subrange(0, i as int));
            }
            let k = ks[i];
            res = res * self.inv_fact[k as usize];
            i += 1;
        }
        proof {
            assert(ks@.subrange(0, ks@.len() as int) =~= ks@);
        }
        res
    }

    /// Returns the homogeneous product `H(n, r) = C(n + r - 1, r - 1)`
    /// modulo `MOD`, and `1` for `n = 0`.
    ///
    /// ## Complexity
    ///
    /// `O(1)`
    #[inline]
    pub fn homogeneous(&self, n: u32, r: u32) -> (c: GF<MOD>)
        requires
            self.wf(),
            1 <= n + r,
            n + r - 1 < self.limit(),
            n == 0 || r >= 1,
        ensures
            n == 0 ==> c@ == 1,
            n > 0 ==> c@ == (((factorial((n + r - 1) as nat) % (MOD as nat)) * inverse_factorial(
                (r - 1) as nat,
                (self.limit() - 1) as nat,
                MOD as nat,
            )) % (MOD as nat) * inverse_factorial(
                n as nat,
                (self.limit() - 1) as nat,
                MOD as nat,
            )) % (MOD as nat),
            prime::is_prime_number(MOD as nat) && n > 0 ==> c@ == fermat::binomial(
                (n + r - 1) as nat,
                (r - 1) as nat,
            ) % (MOD as nat),
    {
        if n == 0 {
            proof {
                div_mod::lemma_small_mod(1, MOD as nat);
            }
            return GF::<MOD>::new(1);
        }
        self.binom(n + r - 1, r - 1)
    }
}

} // verus!
