//! Roots of unity modulo a prime, as the roots of the NTT need them.

use vstd::arithmetic::div_mod;
use vstd::arithmetic::power;
use vstd::arithmetic::power2;
use vstd::prelude::*;

use crate::math::conv::transform;
use crate::math::fermat;
use crate::math::gcd;
use crate::math::miller_rabin;
use crate::math::prime;

verus! {

/// An even product has an even factor.
pub proof fn lemma_even_factor(factors: Seq<u64>) -> (i: int)
    requires
        prime::product(factors) % 2 == 0,
    ensures
        0 <= i < factors.len(),
        factors[i] % 2 == 0,
    decreases factors.len(),
{
    if factors.len() == 0 {
        assert(prime::product(factors) == 1) by {
            reveal_with_fuel(Seq::fold_left, 1);
        }
        0
    } else {
        let rest = factors.drop_last();
        assert(rest.push(factors.last()) =~= factors);
        prime::lemma_product_push(rest, factors.last());
        if factors.last() % 2 == 0 {
            factors.len() - 1
        } else {
            if prime::product(rest) % 2 == 1 {
                gcd::lemma_parity_of_product(prime::product(rest) as int, factors.last() as int);
            }
            lemma_even_factor(rest)
        }
    }
}

/// Modulo an odd prime `p`, the power `(p - 1) / 2` of a primitive root
/// is `-1`.
pub proof fn lemma_half_power(p: nat, g: nat, factors: Seq<u64>)
    requires
        prime::is_prime_number(p),
        p % 2 == 1,
        1 <= g < p,
        prime::is_factorization(factors, (p - 1) as nat),
        prime::is_generator(p, g, factors),
    ensures
        power::pow(g as int, ((p - 1) / 2) as nat) % (p as int) == p - 1,
{
    let m = p as int;
    let h = ((p - 1) / 2) as nat;
    let i = lemma_even_factor(factors);
    assert(prime::is_probable_prime(factors[i] as nat));
    assert(factors[i] == 2);
    let x = power::pow(g as int, h);
    assert(x % m != 1);
    div_mod::lemma_small_mod(g, p);
    fermat::lemma_fermat(p, g);
    power::lemma_pow_adds(g as int, h, h);
    assert(h + h == p - 1);
    power::lemma_pow_positive(g as int, h);
    let y = x % m;
    transform::lemma_congruent_remainder(x, m);
    transform::lemma_congruent_product(y, x, y, x, m);
    miller_rabin::lemma_square_root_of_one(p, y);
    div_mod::lemma_mod_twice(x, m);
}

/// The square of a number with an inverse has the square of the inverse
/// as its inverse.
pub proof fn lemma_inverse_square(x: int, v: int, p: int)
    requires
        p >= 2,
        (x * v) % p == 1,
    ensures
        (((x * x) % p) * ((v * v) % p)) % p == 1,
{
    div_mod::lemma_small_mod(1, p as nat);
    transform::lemma_congruent_remainder(x * x, p);
    transform::lemma_congruent_remainder(v * v, p);
    transform::lemma_congruent_product((x * x) % p, x * x, (v * v) % p, v * v, p);
    assert((x * x) * (v * v) == (x * v) * (x * v)) by (nonlinear_arith);
    transform::lemma_congruent_product(x * v, 1, x * v, 1, p);
}

/// The square of a power of two of a number is the next power of two of
/// it.
pub proof fn lemma_square_step(w: int, e: nat, x: int, p: int)
    requires
        p >= 2,
        x % p == power::pow(w, power2::pow2(e)) % p,
    ensures
        (x * x) % p == power::pow(w, power2::pow2(e + 1)) % p,
{
    let y = power::pow(w, power2::pow2(e));
    transform::lemma_congruent_product(x, y, x, y, p);
    power::lemma_pow_adds(w, power2::pow2(e), power2::pow2(e));
    power2::lemma_pow2_unfold(e + 1);
}

/// The roots of two levels, one after the other, are good: the root of
/// the one is the negative of the square of the root of the next.
pub proof fn lemma_root_next(
    p: int,
    before: int,
    root: int,
    inverse: int,
    zeta_before: int,
    zeta: int,
    first: int,
    second: int,
)
    requires
        p >= 2,
        transform::is_congruent(root * root, before, p),
        (before * inverse) % p == 1,
        transform::is_congruent(zeta, zeta_before * inverse, p),
        (zeta + before) % p == 0,
        transform::is_congruent(first, before * zeta_before, p),
        transform::is_congruent(second, root * zeta, p),
    ensures
        (first + second * second) % p == 0,
{
    div_mod::lemma_small_mod(1, p as nat);
    div_mod::lemma_small_mod(0, p as nat);
    transform::lemma_congruent_product(second, root * zeta, second, root * zeta, p);
    assert((root * zeta) * (root * zeta) == (root * root) * (zeta * zeta)) by (nonlinear_arith);
    transform::lemma_congruent_product(zeta, zeta_before * inverse, zeta, zeta, p);
    transform::lemma_congruent_product(root * root, before, zeta * zeta, (zeta_before * inverse) * zeta, p);
    assert(before * ((zeta_before * inverse) * zeta) == (before * inverse) * (zeta_before * zeta))
        by (nonlinear_arith);
    transform::lemma_congruent_product(before * inverse, 1, zeta_before * zeta, zeta_before * zeta, p);
    assert(1 * (zeta_before * zeta) == zeta_before * zeta);
    transform::lemma_congruent_opposite(zeta, before, p);
    transform::lemma_congruent_product(zeta_before, zeta_before, zeta, -before, p);
    assert(zeta_before * (-before) == -(before * zeta_before)) by (nonlinear_arith);
    // the square of `second` is congruent to the negative of `first`
    transform::lemma_congruent_sum(0, 0, first, before * zeta_before, p);
    assert(0 - first == -first && 0 - before * zeta_before == -(before * zeta_before));
    transform::lemma_congruent_sum(first, first, second * second, -first, p);
    assert(first + (-first) == 0);
}

/// The adjustment for the next level is the negative of the root of this
/// one.
pub proof fn lemma_zeta_next(p: int, root: int, inverse: int, zeta: int)
    requires
        p >= 2,
        (root * inverse) % p == 1,
        (zeta + root * root) % p == 0,
    ensures
        ((zeta * inverse) % p + root) % p == 0,
{
    div_mod::lemma_small_mod(1, p as nat);
    div_mod::lemma_small_mod(0, p as nat);
    transform::lemma_congruent_opposite(zeta, root * root, p);
    transform::lemma_congruent_product(zeta, -(root * root), inverse, inverse, p);
    assert((-(root * root)) * inverse == (-root) * (root * inverse)) by (nonlinear_arith);
    transform::lemma_congruent_product(-root, -root, root * inverse, 1, p);
    assert((-root) * 1 == -root);
    transform::lemma_congruent_remainder(zeta * inverse, p);
    transform::lemma_congruent_sum((zeta * inverse) % p, -root, root, root, p);
    assert(-root + root == 0);
}

/// The product of two numbers with inverses has the product of the
/// inverses as its inverse.
pub proof fn lemma_inverse_product(x: int, v: int, y: int, w: int, p: int)
    requires
        p >= 2,
        (x * v) % p == 1,
        (y * w) % p == 1,
    ensures
        (((x * y) % p) * ((v * w) % p)) % p == 1,
{
    div_mod::lemma_small_mod(1, p as nat);
    transform::lemma_congruent_remainder(x * y, p);
    transform::lemma_congruent_remainder(v * w, p);
    transform::lemma_congruent_product((x * y) % p, x * y, (v * w) % p, v * w, p);
    assert((x * y) * (v * w) == (x * v) * (y * w)) by (nonlinear_arith);
    transform::lemma_congruent_product(x * v, 1, y * w, 1, p);
}

} // verus!
