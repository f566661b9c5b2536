//! GCD (Greatest Common Divisor) and LCM (Least Common Multiple)
//!
//! # Available functions
//!
//! - [`gcd`]: the GCD by the Euclidean algorithm.
//! - [`lcm`]: the LCM through [`gcd`].
//! - [`binary_gcd`]: the GCD by Stein's algorithm.
//! - [`binary_lcm`]: the LCM through [`binary_gcd`].

use vstd::arithmetic::div_mod;
use vstd::arithmetic::power2;
use vstd::bits;
use vstd::prelude::*;
use vstd::std_specs::bits as std_bits;

verus! {

/// `d` is a positive divisor of both `a` and `b`.
pub open spec fn is_common_divisor(d: nat, a: nat, b: nat) -> bool {
    d > 0 && a % d == 0 && b % d == 0
}

/// `g` is the greatest common divisor of `a` and `b`: the largest number
/// that divides both, and `0` for `a = b = 0`.
pub open spec fn is_gcd(g: nat, a: nat, b: nat) -> bool {
    if a == 0 && b == 0 {
        g == 0
    } else {
        is_common_divisor(g, a, b) && forall|d: nat| is_common_divisor(d, a, b) ==> d <= g
    }
}

/// `m` is a positive multiple of both `a` and `b`.
pub open spec fn is_common_multiple(m: nat, a: nat, b: nat) -> bool {
    m > 0 && a > 0 && b > 0 && m % a == 0 && m % b == 0
}

/// `l` is the least common multiple of `a` and `b`: the smallest positive
/// number that both divide, and `0` where `a` or `b` is `0`.
pub open spec fn is_lcm(l: nat, a: nat, b: nat) -> bool {
    if a == 0 || b == 0 {
        l == 0
    } else {
        is_common_multiple(l, a, b) && forall|m: nat| is_common_multiple(m, a, b) ==> l <= m
    }
}

/// The greatest common divisor, by Euclid's recursion.
pub open spec fn gcd_of(a: nat, b: nat) -> nat
    decreases b,
{
    if b == 0 {
        a
    } else {
        gcd_of(b, a % b)
    }
}

/// A multiple of `d` leaves no remainder on division by `d`.
pub proof fn lemma_multiple(k: int, d: int)
    requires
        d > 0,
    ensures
        (k * d) % d == 0,
        (d * k) % d == 0,
{
    div_mod::lemma_mod_multiples_basic(k, d);
    assert(k * d == d * k) by (nonlinear_arith);
}

/// What `d` divides is `d` times the quotient.
pub proof fn lemma_quotient(n: int, d: int)
    requires
        d > 0,
        n % d == 0,
    ensures
        n == d * (n / d),
        n == (n / d) * d,
{
    div_mod::lemma_fundamental_div_mod(n, d);
    assert(d * (n / d) == (n / d) * d) by (nonlinear_arith);
}

/// A positive number is at least as large as each of its divisors.
pub proof fn lemma_divisor_bound(d: nat, n: nat)
    requires
        d > 0,
        n > 0,
        n % d == 0,
    ensures
        d <= n,
{
    if n < d {
        div_mod::lemma_small_mod(n, d);
    }
}

/// The pairs `(a, b)` and `(b, a % b)` have the same common divisors.
pub proof fn lemma_common_divisor_step(d: nat, a: nat, b: nat)
    requires
        b > 0,
    ensures
        is_common_divisor(d, a, b) <==> is_common_divisor(d, b, a % b),
{
    if d > 0 && b % d == 0 {
        let q = a as int / b as int;
        let r = a as int % b as int;
        let k = b as int / d as int;
        div_mod::lemma_fundamental_div_mod(a as int, b as int);
        lemma_quotient(b as int, d as int);
        assert(a == d * (k * q) + r) by (nonlinear_arith)
            requires
                a == b * q + r,
                b == d * k,
        ;
        div_mod::lemma_mod_multiples_vanish(k * q, r, d as int);
    }
}

/// Euclid's recursion computes the greatest common divisor.
pub proof fn lemma_gcd_of(a: nat, b: nat)
    ensures
        is_gcd(gcd_of(a, b), a, b),
    decreases b,
{
    if b == 0 {
        if a > 0 {
            div_mod::lemma_mod_self_0(a as int);
            assert forall|d: nat| is_common_divisor(d, a, b) implies d <= a by {
                lemma_divisor_bound(d, a);
            }
        }
    } else {
        let g = gcd_of(b, a % b);
        lemma_gcd_of(b, a % b);
        lemma_common_divisor_step(g, a, b);
        assert forall|d: nat| is_common_divisor(d, a, b) implies d <= g by {
            lemma_common_divisor_step(d, a, b);
        }
    }
}

/// Bézout's identity: the greatest common divisor of `a` and `b` is a
/// combination `a * x + b * y` with integer coefficients, which are
/// returned.
pub proof fn lemma_bezout(a: nat, b: nat) -> (xy: (int, int))
    ensures
        a * xy.0 + b * xy.1 == gcd_of(a, b),
    decreases b,
{
    if b == 0 {
        (1, 0)
    } else {
        let (x, y) = lemma_bezout(b, a % b);
        let q = a as int / b as int;
        let r = a as int % b as int;
        div_mod::lemma_fundamental_div_mod(a as int, b as int);
        assert(a * y + b * (x - q * y) == b * x + r * y) by (nonlinear_arith)
            requires
                a == b * q + r,
        ;
        (y, x - q * y)
    }
}

/// Euclid's lemma: if `a` divides `b * c`, and some combination of `a`
/// and `b` is `1`, then `a` divides `c`.
pub proof fn lemma_euclid(a: int, b: int, c: int, x: int, y: int)
    requires
        a > 0,
        a * x + b * y == 1,
        (b * c) % a == 0,
    ensures
        c % a == 0,
{
    let k = (b * c) / a;
    lemma_quotient(b * c, a);
    assert(c == (x * c + k * y) * a) by (nonlinear_arith)
        requires
            a * x + b * y == 1,
            b * c == a * k,
    ;
    lemma_multiple(x * c + k * y, a);
}

/// The product of two positive numbers, divided by their greatest common
/// divisor, is their least common multiple.
pub proof fn lemma_lcm(a: nat, b: nat, g: nat)
    requires
        a > 0,
        b > 0,
        is_gcd(g, a, b),
    ensures
        is_lcm((a / g) * b, a, b),
        a % g == 0,
        (a / g) * b > 0,
{
    lemma_gcd_of(a, b);
    let l = (a / g) * b;
    let a1 = a as int / g as int;
    let b1 = b as int / g as int;
    lemma_quotient(a as int, g as int);
    lemma_quotient(b as int, g as int);
    assert(a1 > 0 && b1 > 0) by (nonlinear_arith)
        requires
            a == g * a1,
            b == g * b1,
            a > 0,
            b > 0,
            g > 0,
    ;
    assert(l == b1 * a) by (nonlinear_arith)
        requires
            l == a1 * b,
            a == g * a1,
            b == g * b1,
    ;
    lemma_multiple(b1, a as int);
    lemma_multiple(a1, b as int);
    assert(l > 0) by (nonlinear_arith)
        requires
            l == a1 * b,
            a1 > 0,
            b > 0,
    ;
    let (x, y) = lemma_bezout(a, b);
    assert(a1 * x + b1 * y == 1) by (nonlinear_arith)
        requires
            a * x + b * y == g,
            a == g * a1,
            b == g * b1,
            g > 0,
    ;
    assert forall|m: nat| is_common_multiple(m, a, b) implies l <= m by {
        let u = m as int / a as int;
        let v = m as int / b as int;
        lemma_quotient(m as int, a as int);
        lemma_quotient(m as int, b as int);
        // g * a1 * u == g * b1 * v, so b1 divides a1 * u, and then u
        assert(a1 * u == b1 * v) by (nonlinear_arith)
            requires
                m == a * u,
                m == b * v,
                a == g * a1,
                b == g * b1,
                g > 0,
        ;
        lemma_multiple(v, b1);
        assert(b1 * y + a1 * x == 1);
        lemma_euclid(b1, a1, u, y, x);
        let w = u / b1;
        lemma_quotient(u, b1);
        assert(m == l * w) by (nonlinear_arith)
            requires
                m == a * u,
                u == b1 * w,
                l == b1 * a,
        ;
        assert(w >= 1) by (nonlinear_arith)
            requires
                m == l * w,
                m > 0,
                l > 0,
        ;
        assert(l <= l * w) by (nonlinear_arith)
            requires
                w >= 1,
                l > 0,
        ;
    }
}

/// Returns the greatest common divisor of `a` and `b`, by the Euclidean
/// algorithm.
///
/// ## Special Cases
///
/// - `gcd(a, 0) = a`
/// - `gcd(0, b) = b`
/// - `gcd(0, 0) = 0` (by convention)
///
/// ## Complexity
///
/// `O(log (min(a, b)))`
pub fn gcd(a: u64, b: u64) -> (g: u64)
    ensures
        is_gcd(g as nat, a as nat, b as nat),
{
    let (mut a, mut b) = (a, b);
    let ghost (a0, b0) = (a, b);
    while b != 0
        invariant
            gcd_of(a as nat, b as nat) == gcd_of(a0 as nat, b0 as nat),
        decreases b,
    {
        let r = a % b;
        a = b;
        b = r;
    }
    proof {
        lemma_gcd_of(a0 as nat, b0 as nat);
    }
    a
}

/// Returns the least common multiple of `a` and `b`.
///
/// ## Special Cases
///
/// - `lcm(a, 0) = 0`
/// - `lcm(0, b) = 0`
///
/// ## Complexity
///
/// `O(log (min(a, b)))`
pub fn lcm(a: u64, b: u64) -> (l: u64)
    requires
        a == 0 || b == 0 || (a as nat / gcd_of(a as nat, b as nat)) * b <= u64::MAX,
    ensures
        is_lcm(l as nat, a as nat, b as nat),
{
    if a == 0 || b == 0 {
        return 0;
    }
    let g = gcd(a, b);
    proof {
        lemma_gcd_of(a as nat, b as nat);
        lemma_lcm(a as nat, b as nat, g as nat);
    }
    a / g * b
}

/// The greatest common divisor does not depend on the order of the two
/// numbers.
pub proof fn lemma_gcd_symmetric(a: nat, b: nat)
    ensures
        gcd_of(a, b) == gcd_of(b, a),
{
    lemma_gcd_of(a, b);
    lemma_gcd_of(b, a);
    let g = gcd_of(a, b);
    let h = gcd_of(b, a);
    if a != 0 || b != 0 {
        assert(is_common_divisor(g, b, a));
        assert(is_common_divisor(h, a, b));
    }
}

/// Subtracting the smaller number from the larger keeps the greatest
/// common divisor.
pub proof fn lemma_gcd_subtract(a: nat, b: nat)
    requires
        a >= b,
    ensures
        gcd_of((a - b) as nat, b) == gcd_of(a, b),
{
    let c = (a - b) as nat;
    lemma_gcd_of(a, b);
    lemma_gcd_of(c, b);
    let g = gcd_of(a, b);
    let h = gcd_of(c, b);
    if a != 0 || b != 0 {
        assert forall|d: nat| is_common_divisor(d, a, b) <==> is_common_divisor(d, c, b) by {
            if d > 0 && b % d == 0 {
                lemma_quotient(b as int, d as int);
                div_mod::lemma_mod_multiples_vanish(b as int / d as int, c as int, d as int);
            }
        }
        assert(is_common_divisor(g, c, b));
        assert(is_common_divisor(h, a, b));
    }
}

/// A product with an even factor is even; a product of odd factors is odd.
pub proof fn lemma_parity_of_product(x: int, y: int)
    ensures
        x % 2 == 0 ==> (x * y) % 2 == 0 && (y * x) % 2 == 0,
        x % 2 == 1 && y % 2 == 1 ==> (x * y) % 2 == 1,
{
    if x % 2 == 0 {
        assert(x * y == ((x / 2) * y) * 2 && y * x == x * y) by (nonlinear_arith)
            requires
                x == 2 * (x / 2),
        ;
        lemma_multiple((x / 2) * y, 2);
    }
    if x % 2 == 1 && y % 2 == 1 {
        assert(x * y == 2 * (2 * (x / 2) * (y / 2) + (x / 2) + (y / 2)) + 1) by (nonlinear_arith)
            requires
                x == 2 * (x / 2) + 1,
                y == 2 * (y / 2) + 1,
        ;
    }
}

/// A factor two of one number is no part of the greatest common divisor
/// with an odd number.
pub proof fn lemma_gcd_halve(a: nat, b: nat)
    requires
        b % 2 == 1,
    ensures
        gcd_of(2 * a, b) == gcd_of(a, b),
{
    lemma_gcd_of(a, b);
    lemma_gcd_of(2 * a, b);
    let g = gcd_of(a, b);
    let h = gcd_of(2 * a, b);
    assert forall|d: nat| is_common_divisor(d, 2 * a, b) <==> is_common_divisor(d, a, b) by {
        if d > 0 && b % d == 0 {
            if a % d == 0 {
                lemma_quotient(a as int, d as int);
                assert(2 * a == (2 * (a as int / d as int)) * d) by (nonlinear_arith)
                    requires
                        a == (a as int / d as int) * d,
                ;
                lemma_multiple(2 * (a as int / d as int), d as int);
            }
            if (2 * a) % d == 0 {
                // `d` is odd, as it divides `b`; so the quotient of `2a` by `d` is even
                let k = (2 * a) as int / d as int;
                let j = b as int / d as int;
                lemma_quotient((2 * a) as int, d as int);
                lemma_quotient(b as int, d as int);
                lemma_parity_of_product(d as int, j);
                lemma_parity_of_product(k, d as int);
                assert(a == (k / 2) * d) by (nonlinear_arith)
                    requires
                        2 * a == k * d,
                        k % 2 == 0,
                ;
                lemma_multiple(k / 2, d as int);
            }
        }
    }
    assert(is_common_divisor(g, 2 * a, b));
    assert(is_common_divisor(h, a, b));
}

/// A factor two of both numbers is a factor of their greatest common
/// divisor.
pub proof fn lemma_gcd_double(a: nat, b: nat)
    ensures
        gcd_of(2 * a, 2 * b) == 2 * gcd_of(a, b),
{
    lemma_gcd_of(a, b);
    lemma_gcd_of(2 * a, 2 * b);
    let g = gcd_of(a, b);
    let h = gcd_of(2 * a, 2 * b);
    if a != 0 || b != 0 {
        lemma_quotient(a as int, g as int);
        lemma_quotient(b as int, g as int);
        let a1 = a as int / g as int;
        let b1 = b as int / g as int;
        assert(2 * a == a1 * (2 * g) && 2 * b == b1 * (2 * g)) by (nonlinear_arith)
            requires
                a == a1 * g,
                b == b1 * g,
        ;
        lemma_multiple(a1, (2 * g) as int);
        lemma_multiple(b1, (2 * g) as int);
        assert(is_common_divisor(2 * g, 2 * a, 2 * b));
        // `h` divides `2a * x + 2b * y`, which is `2g`
        let (x, y) = lemma_bezout(a, b);
        lemma_quotient((2 * a) as int, h as int);
        lemma_quotient((2 * b) as int, h as int);
        let u = (2 * a) as int / h as int;
        let v = (2 * b) as int / h as int;
        assert(2 * g == (u * x + v * y) * h) by (nonlinear_arith)
            requires
                a * x + b * y == g,
                2 * a == u * h,
                2 * b == v * h,
        ;
        lemma_multiple(u * x + v * y, h as int);
        lemma_divisor_bound(h, 2 * g);
    }
}

/// Powers of two in one number are no part of the greatest common divisor
/// with an odd number.
pub proof fn lemma_gcd_odd_part(a: nat, b: nat, k: nat)
    requires
        b % 2 == 1,
    ensures
        gcd_of(a * power2::pow2(k), b) == gcd_of(a, b),
    decreases k,
{
    if k == 0 {
        power2::lemma2_to64();
        assert(a * power2::pow2(k) == a) by (nonlinear_arith)
            requires
                power2::pow2(k) == 1,
        ;
    } else {
        power2::lemma_pow2_unfold(k);
        let p = power2::pow2((k - 1) as nat);
        assert(a * power2::pow2(k) == 2 * (a * p)) by (nonlinear_arith)
            requires
                power2::pow2(k) == 2 * p,
        ;
        lemma_gcd_halve(a * p, b);
        lemma_gcd_odd_part(a, b, (k - 1) as nat);
    }
}

/// A power of two in both numbers is a factor of their greatest common
/// divisor.
pub proof fn lemma_gcd_shared_power(a: nat, b: nat, k: nat)
    ensures
        gcd_of(a * power2::pow2(k), b * power2::pow2(k)) == gcd_of(a, b) * power2::pow2(k),
    decreases k,
{
    if k == 0 {
        power2::lemma2_to64();
        assert(a * power2::pow2(k) == a && b * power2::pow2(k) == b && gcd_of(a, b) * power2::pow2(
            k,
        ) == gcd_of(a, b)) by (nonlinear_arith)
            requires
                power2::pow2(k) == 1,
        ;
    } else {
        power2::lemma_pow2_unfold(k);
        let p = power2::pow2((k - 1) as nat);
        let g = gcd_of(a, b);
        assert(a * power2::pow2(k) == 2 * (a * p) && b * power2::pow2(k) == 2 * (b * p) && g
            * power2::pow2(k) == 2 * (g * p)) by (nonlinear_arith)
            requires
                power2::pow2(k) == 2 * p,
        ;
        lemma_gcd_double(a * p, b * p);
        lemma_gcd_shared_power(a, b, (k - 1) as nat);
    }
}

/// A number is its odd part times the power of two that its trailing zero
/// bits count.
pub proof fn lemma_trailing_zeros(a: u64)
    requires
        a != 0,
    ensures
        a.trailing_zeros() < 64,
        (a >> a.trailing_zeros()) % 2 == 1,
        a == (a >> a.trailing_zeros()) * power2::pow2(a.trailing_zeros() as nat),
{
    let t = a.trailing_zeros() as u64;
    std_bits::axiom_u64_trailing_zeros(a);
    let q = a >> t;
    assert(q & 1 == q % 2) by (bit_vector);
    assert((q << t) == a) by (bit_vector)
        requires
            t < 64,
            q == a >> t,
            a << ((64 - t) as u64) == 0,
    ;
    bits::lemma_u64_shr_is_div(a, t);
    power2::lemma_pow2_pos(t as nat);
    div_mod::lemma_fundamental_div_mod(a as int, power2::pow2(t as nat) as int);
    div_mod::lemma_mod_bound(a as int, power2::pow2(t as nat) as int);
    assert(q * power2::pow2(t as nat) == power2::pow2(t as nat) * q) by (nonlinear_arith);
    bits::lemma_u64_shl_is_mul(q, t);
}

/// Returns the greatest common divisor of `a` and `b`, by Stein's
/// algorithm, which avoids division.
///
/// ## Special Cases
///
/// - `gcd(a, 0) = a`
/// - `gcd(0, b) = b`
/// - `gcd(0, 0) = 0` (by convention)
///
/// ## Complexity
///
/// `O(log (min(a, b)))`
pub fn binary_gcd(a: u64, b: u64) -> (g: u64)
    ensures
        is_gcd(g as nat, a as nat, b as nat),
{
    let (mut a, mut b) = (a, b);
    let ghost (a0, b0) = (a, b);
    if a == 0 || b == 0 {
        proof {
            lemma_gcd_of(a as nat, b as nat);
            lemma_gcd_symmetric(a as nat, b as nat);
        }
        return a + b;
    }
    let x = a.trailing_zeros();
    let y = b.trailing_zeros();
    proof {
        lemma_trailing_zeros(a);
        lemma_trailing_zeros(b);
    }
    a >>= x;
    b >>= y;
    let ghost (a1, b1) = (a, b);
    while a != b
        invariant
            a % 2 == 1,
            b % 2 == 1,
            gcd_of(a as nat, b as nat) == gcd_of(a1 as nat, b1 as nat),
        decreases a + b,
    {
        let x = (a ^ b).trailing_zeros();
        let ghost (pa, pb) = (a, b);
        if a < b {
            proof {
                lemma_gcd_symmetric(a as nat, b as nat);
            }
            core::mem::swap(&mut a, &mut b);
        }
        proof {
            let c = (a - b) as u64;
            let t = x as u64;
            std_bits::axiom_u64_trailing_zeros(pa ^ pb);
            assert(pa ^ pb != 0 && pa ^ pb == pb ^ pa) by (bit_vector)
                requires
                    pa != pb,
            ;
            assert(a & 1 == a % 2 && b & 1 == b % 2) by (bit_vector);
            assert((c >> t) & 1 == 1 && c << ((64 - t) as u64) == 0 && t >= 1) by (bit_vector)
                requires
                    t < 64,
                    a > b,
                    c == a - b,
                    a & 1 == 1,
                    b & 1 == 1,
                    ((a ^ b) >> t) & 1 == 1,
                    (a ^ b) << ((64 - t) as u64) == 0,
            ;
            // the trailing zeros of `a - b` are those of `a ^ b`
            let q = c >> t;
            assert(q & 1 == q % 2) by (bit_vector);
            assert((q << t) == c) by (bit_vector)
                requires
                    t < 64,
                    q == c >> t,
                    c << ((64 - t) as u64) == 0,
            ;
            bits::lemma_u64_shr_is_div(c, t);
            power2::lemma_pow2_pos(t as nat);
            div_mod::lemma_fundamental_div_mod(c as int, power2::pow2(t as nat) as int);
            div_mod::lemma_mod_bound(c as int, power2::pow2(t as nat) as int);
            assert(q * power2::pow2(t as nat) == power2::pow2(t as nat) * q) by (nonlinear_arith);
            bits::lemma_u64_shl_is_mul(q, t);
            lemma_gcd_subtract(a as nat, b as nat);
            lemma_gcd_odd_part(q as nat, b as nat, t as nat);
            assert(q <= q * power2::pow2(t as nat)) by (nonlinear_arith)
                requires
                    power2::pow2(t as nat) >= 1,
            ;
        }
        a = (a - b) >> x;
    }
    let shared = if x < y {
        x
    } else {
        y
    };
    proof {
        let g1 = a as nat;
        let pa = power2::pow2(x as nat);
        let pb = power2::pow2(y as nat);
        let ps = power2::pow2(shared as nat);
        // gcd(a1, b1) is `a`, as `a == b`
        lemma_gcd_of(a as nat, a as nat);
        div_mod::lemma_mod_self_0(a as int);
        assert(gcd_of(a as nat, a as nat) == a) by {
            assert(gcd_of(a as nat, 0) == a);
        }
        // gcd(a1 * 2^x, b1 * 2^y) is gcd(a1, b1) * 2^min(x, y)
        if x < y {
            let rest = power2::pow2((y - x) as nat);
            power2::lemma_pow2_adds((y - x) as nat, x as nat);
            assert(b1 * pb == (b1 * rest) * pa) by (nonlinear_arith)
                requires
                    pb == rest * pa,
            ;
            lemma_gcd_shared_power(a1 as nat, b1 as nat * rest, x as nat);
            lemma_gcd_symmetric(a1 as nat, b1 as nat * rest);
            lemma_gcd_odd_part(b1 as nat, a1 as nat, (y - x) as nat);
            lemma_gcd_symmetric(b1 as nat, a1 as nat);
        } else {
            let rest = power2::pow2((x - y) as nat);
            power2::lemma_pow2_adds((x - y) as nat, y as nat);
            assert(a1 * pa == (a1 * rest) * pb) by (nonlinear_arith)
                requires
                    pa == rest * pb,
            ;
            lemma_gcd_shared_power(a1 as nat * rest, b1 as nat, y as nat);
            lemma_gcd_odd_part(a1 as nat, b1 as nat, (x - y) as nat);
        }
        assert(gcd_of(a0 as nat, b0 as nat) == g1 * ps);
        lemma_gcd_of(a0 as nat, b0 as nat);
        lemma_divisor_bound(g1 * ps, a0 as nat);
        bits::lemma_u64_shl_is_mul(a, shared as u64);
    }
    a << shared
}

/// Returns the least common multiple of `a` and `b`, through
/// [`binary_gcd`].
///
/// ## Special Cases
///
/// - `lcm(a, 0) = 0`
/// - `lcm(0, b) = 0`
///
/// ## Complexity
///
/// `O(log (min(a, b)))`
pub fn binary_lcm(a: u64, b: u64) -> (l: u64)
    requires
        a == 0 || b == 0 || (a as nat / gcd_of(a as nat, b as nat)) * b <= u64::MAX,
    ensures
        is_lcm(l as nat, a as nat, b as nat),
{
    if a == 0 || b == 0 {
        return 0;
    }
    let g = binary_gcd(a, b);
    proof {
        lemma_gcd_of(a as nat, b as nat);
        lemma_lcm(a as nat, b as nat, g as nat);
    }
    a / g * b
}

} // verus!
