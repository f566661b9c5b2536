//! Modular arithmetic utilities
//!
//! # Available functions
//!
//! - [`pow_mod`]: exponentiation modulo some value.

use vstd::arithmetic::div_mod;
use vstd::arithmetic::power;
use vstd::prelude::*;

verus! {

/// One step of exponentiation by squaring keeps `r * b^n` as it is modulo
/// `m`: an odd `n` moves one factor `b` into `r`, and `b` is squared while
/// `n` is halved.
pub proof fn lemma_square_and_multiply(r: int, b: int, n: nat, m: int)
    requires
        m > 0,
        n > 0,
    ensures
        ((if n % 2 == 1 {
            (r * b) % m
        } else {
            r
        }) * power::pow((b * b) % m, n / 2)) % m == (r * power::pow(b, n)) % m,
{
    let half = n / 2;
    let sq = power::pow(b * b, half);
    // (b * b)^half == b^(2 * half)
    power::lemma_pow_multiplies(b, 2, half);
    power::lemma_pow1(b);
    power::lemma_pow_adds(b, 1, 1);
    assert(power::pow(b, 2) == b * b);
    // reducing the base modulo m changes nothing modulo m
    power::lemma_pow_mod_noop(b * b, half, m);
    let sq_red = power::pow((b * b) % m, half);
    assert(sq_red % m == sq % m);
    if n % 2 == 1 {
        power::lemma_pow_adds(b, 1, 2 * half);
        assert(power::pow(b, n) == b * sq);
        div_mod::lemma_mul_mod_noop_general((r * b) % m, sq_red, m);
        div_mod::lemma_mul_mod_noop_general(r * b, sq_red, m);
        div_mod::lemma_mul_mod_noop_general(r * b, sq, m);
        assert((r * b) * sq == r * (b * sq)) by (nonlinear_arith);
    } else {
        assert(power::pow(b, n) == sq);
        div_mod::lemma_mul_mod_noop_general(r, sq_red, m);
        div_mod::lemma_mul_mod_noop_general(r, sq, m);
    }
}

/// Returns `a^n` modulo `m`; for `n = 0` that is `1`, also where `m` is
/// `1`.
///
/// The products of two residues have to fit in `u64`.
///
/// ## Complexity
///
/// `O(log n)`
#[inline]
pub fn pow_mod(a: u64, n: u64, m: u64) -> (r: u64)
    requires
        m >= 1,
        (m - 1) * (m - 1) <= u64::MAX,
    ensures
        r == if n == 0 {
            1
        } else {
            power::pow(a as int, n as nat) % (m as int)
        },
{
    let ghost (a0, n0) = (a as int, n as nat);
    let (mut a, mut n) = (a, n);
    let mut res: u64 = 1;
    a = a % m;
    proof {
        power::lemma_pow_mod_noop(a0, n0, m as int);
        assert(1 * power::pow(a as int, n0) == power::pow(a as int, n0)) by (nonlinear_arith);
    }
    while n > 0
        invariant
            m >= 1,
            (m - 1) * (m - 1) <= u64::MAX,
            a < m,
            res < m || (res == 1 && (n > 0 || n0 == 0)),
            n0 == 0 ==> n == 0 && res == 1,
            (res * power::pow(a as int, n as nat)) % (m as int) == power::pow(a0, n0) % (m as int),
        decreases n,
    {
        proof {
            lemma_square_and_multiply(res as int, a as int, n as nat, m as int);
            assert(res * a <= (m - 1) * (m - 1) && a * a <= (m - 1) * (m - 1)) by (nonlinear_arith)
                requires
                    a <= m - 1,
                    res <= m - 1 || (res == 1 && m == 1),
                    m >= 1,
            ;
        }
        assert(n & 1 == n % 2) by (bit_vector);
        if n & 1 == 1 {
            res = res * a % m;
        }
        a = a * a % m;
        let ghost before = n;
        n >>= 1;
        assert(n == before / 2) by (bit_vector)
            requires
                n == before >> 1,
        ;
    }
    proof {
        power::lemma_pow0(a as int);
        if n0 > 0 {
            div_mod::lemma_small_mod(res as nat, m as nat);
        }
    }
    res
}

} // verus!
