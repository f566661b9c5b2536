//! The strong probable prime test never rejects a prime.
//!
//! For a prime `n` and a base `a` that `n` does not divide, `a^(n - 1)` is
//! `1` modulo `n` by Fermat's little theorem. With `n - 1 = d * 2^r`, the
//! numbers `a^d, a^(2d), .., a^(2^r d)` are each the square of the one
//! before, and end in `1`. As `1` has no square roots modulo a prime but
//! `1` and `-1`, the first of them is `1`, or one before the last is `-1`.

use vstd::arithmetic::div_mod;
use vstd::arithmetic::power;
use vstd::arithmetic::power2;
use vstd::prelude::*;

use crate::math::fermat;
use crate::math::prime;

verus! {

/// Modulo a prime, a number whose square is `1` is `1` or `-1`.
pub proof fn lemma_square_root_of_one(p: nat, x: int)
    requires
        prime::is_prime_number(p),
        x >= 0,
        (x * x) % (p as int) == 1,
    ensures
        x % (p as int) == 1 || x % (p as int) == p - 1,
{
    let m = p as int;
    assert((x + 1) * (x - 1) == x * x - 1) by (nonlinear_arith);
    div_mod::lemma_small_mod(1, p);
    div_mod::lemma_mod_equivalence(x * x, 1, m);
    fermat::lemma_prime_divides_product(p, x + 1, x - 1);
    if (x - 1) % m == 0 {
        div_mod::lemma_mod_equivalence(x, 1, m);
    } else {
        div_mod::lemma_mod_equivalence(x, -1, m);
        div_mod::lemma_fundamental_div_mod_converse(-1, m, -1, p - 1);
    }
}

/// Where `a^(d * 2^j)` is `1` modulo a prime `n`, either `a^d` is `1`
/// modulo `n`, or one of `a^(d * 2^i)` with `i < j` is `-1` modulo `n`.
proof fn lemma_descent(n: nat, a: nat, d: nat, j: nat)
    requires
        prime::is_prime_number(n),
        a >= 1,
        power::pow(a as int, d * power2::pow2(j)) % (n as int) == 1,
    ensures
        power::pow(a as int, d) % (n as int) == 1 || exists|i: nat|
            i < j && #[trigger] power::pow(a as int, d * power2::pow2(i)) % (n as int) == n - 1,
    decreases j,
{
    if j == 0 {
        power2::lemma2_to64();
        assert(d * power2::pow2(0) == d) by (nonlinear_arith)
            requires
                power2::pow2(0) == 1,
        ;
    } else {
        let i = (j - 1) as nat;
        let e = d * power2::pow2(i);
        let x = power::pow(a as int, e);
        power2::lemma_pow2_unfold(j);
        assert(d * power2::pow2(j) == e + e) by (nonlinear_arith)
            requires
                e == d * power2::pow2(i),
                power2::pow2(j) == 2 * power2::pow2(i),
        ;
        power::lemma_pow_adds(a as int, e, e);
        power::lemma_pow_positive(a as int, e);
        lemma_square_root_of_one(n, x);
        if x % (n as int) == 1 {
            lemma_descent(n, a, d, i);
        }
    }
}

/// A prime passes the primality test of [`is_prime`](prime::is_prime).
pub proof fn lemma_prime_passes(n: nat)
    requires
        prime::is_prime_number(n),
    ensures
        prime::is_probable_prime(n),
{
    if n != 2 {
        assert(n % 2 == 1) by {
            if n % 2 == 0 {
                assert(n % 2nat != 0);
            }
        }
        let d = prime::odd_part((n - 1) as nat);
        let r = prime::valuation((n - 1) as nat);
        prime::lemma_decomposition((n - 1) as nat);
        assert forall|k: int| 0 <= k < prime::bases(n).len() implies prime::is_strong_probable_prime(
            n,
            #[trigger] prime::bases(n)[k],
        ) by {
            let a = prime::bases(n)[k];
            if a % n != 0 {
                div_mod::lemma_small_mod(0, n);
                fermat::lemma_fermat(n, a);
                lemma_descent(n, a, d, r);
            }
        }
    }
}

} // verus!
