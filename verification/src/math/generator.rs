//! Primitive roots modulo a prime
//!
//! Modulo a prime `p`, some number has the order `p - 1`: its powers are
//! all the non-zero residues. The proof here goes by the roots of
//! polynomials: modulo a prime, a polynomial of degree `d` has at most `d`
//! roots, so that for a prime `q` that divides `p - 1` some number is no
//! root of the power `(p - 1) / q` of the variable less one. From such
//! numbers a number of order `p - 1` is made, prime power by prime power.

use vstd::arithmetic::div_mod;
use vstd::arithmetic::power;
use vstd::prelude::*;

use crate::math::conv::transform;
use crate::math::fermat;
use crate::math::gcd;
use crate::math::prime;

verus! {

/// The value of a polynomial whose coefficients are `c` times those of
/// another is `c` times the value of the other.
pub proof fn lemma_evaluation_scaled(u: Seq<int>, w: Seq<int>, c: int, x: int)
    requires
        u.len() == w.len(),
        forall|k: int| 0 <= k < w.len() ==> #[trigger] w[k] == c * u[k],
    ensures
        transform::evaluation(w, x) == c * transform::evaluation(u, x),
    decreases w.len(),
{
    if w.len() > 0 {
        lemma_evaluation_scaled(u.drop_last(), w.drop_last(), c, x);
        let e = power::pow(x, (w.len() - 1) as nat);
        let before = transform::evaluation(u.drop_last(), x);
        assert(c * before + (c * u.last()) * e == c * (before + u.last() * e)) by (nonlinear_arith);
    } else {
        assert(c * 0 == 0);
    }
}

/// The value of a polynomial of one coefficient is that coefficient.
pub proof fn lemma_evaluation_constant(a: Seq<int>, x: int)
    requires
        a.len() == 1,
    ensures
        transform::evaluation(a, x) == a[0],
{
    assert(a.drop_last().len() == 0);
    assert(transform::evaluation(a.drop_last(), x) == 0);
    power::lemma_pow0(x);
    assert(a.last() * 1 == a[0]);
}

/// The coefficients of the quotient of the power `n` of the variable less
/// the power `n` of `r` by the variable less `r`.
pub open spec fn geometric(r: int, n: nat) -> Seq<int> {
    Seq::new(n, |k: int| power::pow(r, (n - 1 - k) as nat))
}

/// The power `n` of `x` less the power `n` of `r` is `x - r` times the
/// value of a polynomial.
pub proof fn lemma_geometric(r: int, n: nat, x: int)
    ensures
        power::pow(x, n) - power::pow(r, n) == (x - r) * transform::evaluation(geometric(r, n), x),
    decreases n,
{
    reveal(power::pow);
    if n == 0 {
        assert((x - r) * 0 == 0);
    } else {
        let m = (n - 1) as nat;
        lemma_geometric(r, m, x);
        let whole = geometric(r, n);
        let less = geometric(r, m);
        assert forall|k: int| 0 <= k < m implies #[trigger] whole.drop_last()[k] == r * less[k] by {
            assert((n - 1 - k) as nat == (m - 1 - k) as nat + 1);
        }
        lemma_evaluation_scaled(less, whole.drop_last(), r, x);
        let (e, y) = (transform::evaluation(less, x), power::pow(x, m));
        assert(whole.last() == 1);
        assert((x - r) * (r * e + 1 * y) == r * ((x - r) * e) + x * y - r * y) by (nonlinear_arith);
        assert(r * (y - power::pow(r, m)) == r * y - r * power::pow(r, m)) by (nonlinear_arith);
    }
}

/// The coefficients of the quotient of the polynomial with the
/// coefficients `a` by the variable less `r`.
pub open spec fn quotient(a: Seq<int>, r: int) -> Seq<int>
    decreases a.len(),
{
    if a.len() <= 1 {
        Seq::empty()
    } else {
        let n = (a.len() - 1) as nat;
        Seq::new(
            n,
            |k: int|
                transform::coefficient(quotient(a.drop_last(), r), k) + a.last() * geometric(r, n)[k],
        )
    }
}

/// A polynomial is its quotient by the variable less `r`, times the
/// variable less `r`, and its value at `r`.
pub proof fn lemma_quotient(a: Seq<int>, r: int, x: int)
    ensures
        transform::evaluation(a, x) - transform::evaluation(a, r) == (x - r) * transform::evaluation(
            quotient(a, r),
            x,
        ),
        a.len() >= 1 ==> quotient(a, r).len() == a.len() - 1,
        a.len() >= 2 ==> quotient(a, r).last() == a.last(),
    decreases a.len(),
{
    reveal(power::pow);
    if a.len() == 0 {
        assert((x - r) * 0 == 0);
    } else if a.len() == 1 {
        lemma_evaluation_constant(a, x);
        lemma_evaluation_constant(a, r);
        assert(quotient(a, r).len() == 0);
        assert((x - r) * 0 == 0);
    } else {
        let n = (a.len() - 1) as nat;
        let rest = a.drop_last();
        let c = a.last();
        lemma_quotient(rest, r, x);
        lemma_geometric(r, n, x);
        let q = quotient(a, r);
        let before = quotient(rest, r);
        // the quotient is the sum of the quotient before, and `c` times the geometric one
        let padded = Seq::new(n, |k: int| transform::coefficient(before, k));
        let scaled = Seq::new(n, |k: int| c * geometric(r, n)[k]);
        transform::lemma_evaluation_padded(before, padded, x);
        lemma_evaluation_scaled(geometric(r, n), scaled, c, x);
        transform::lemma_evaluation_sum(padded, scaled, q, x);
        let (eb, eg) = (transform::evaluation(before, x), transform::evaluation(geometric(r, n), x));
        assert((x - r) * (eb + c * eg) == (x - r) * eb + c * ((x - r) * eg)) by (nonlinear_arith);
        assert(c * (power::pow(x, n) - power::pow(r, n)) == c * power::pow(x, n) - c * power::pow(
            r,
            n,
        )) by (nonlinear_arith);
        assert(geometric(r, n)[n - 1] == 1);
        assert(q.last() == transform::coefficient(before, n - 1) + c * 1);
    }
}

/// Modulo a prime, a polynomial of degree `d` has no `d + 1` roots: of
/// `d + 1` numbers, one is no root. Its index is returned.
pub proof fn lemma_root_bound(a: Seq<int>, roots: Seq<int>, p: nat) -> (i: int)
    requires
        prime::is_prime_number(p),
        a.len() >= 1,
        a.last() % (p as int) != 0,
        roots.len() == a.len(),
        forall|i: int| 0 <= i < roots.len() ==> 0 <= #[trigger] roots[i] < p,
        forall|i: int, j: int| 0 <= i < j < roots.len() ==> roots[i] != roots[j],
    ensures
        0 <= i < roots.len(),
        transform::evaluation(a, roots[i]) % (p as int) != 0,
    decreases a.len(),
{
    reveal(power::pow);
    let m = p as int;
    if a.len() == 1 {
        lemma_evaluation_constant(a, roots[0]);
        0
    } else {
        let r = roots.last();
        if transform::evaluation(a, r) % m != 0 {
            roots.len() - 1
        } else {
            let q = quotient(a, r);
            let others = roots.drop_last();
            lemma_quotient(a, r, 0);
            let i = lemma_root_bound(q, others, p);
            let x = roots[i];
            assert(others[i] == x);
            let e = transform::evaluation(q, x);
            if transform::evaluation(a, x) % m == 0 {
                lemma_quotient(a, r, x);
                div_mod::lemma_small_mod(0, p);
                transform::lemma_congruent_sum(
                    transform::evaluation(a, x),
                    0,
                    transform::evaluation(a, r),
                    0,
                    m,
                );
                assert(((x - r) * e) % m == 0);
                if x > r {
                    div_mod::lemma_small_mod((x - r) as nat, p);
                    fermat::lemma_prime_divides_product(p, x - r, e);
                } else {
                    assert((r - x) * (-e) == (x - r) * e) by (nonlinear_arith);
                    div_mod::lemma_small_mod((r - x) as nat, p);
                    fermat::lemma_prime_divides_product(p, r - x, -e);
                    transform::lemma_congruent_sum(0, 0, -e, 0, m);
                    assert(0 - (-e) == e);
                }
            }
            i
        }
    }
}

/// The coefficients of the power `m` of the variable, less `1`.
pub open spec fn power_less_one(m: nat) -> Seq<int> {
    Seq::new(
        m + 1,
        |k: int|
            if k == 0 {
                -1int
            } else if k == m {
                1int
            } else {
                0int
            },
    )
}

/// The value of the polynomial of [`power_less_one`].
pub proof fn lemma_power_less_one(m: nat, x: int)
    requires
        m >= 1,
    ensures
        transform::evaluation(power_less_one(m), x) == power::pow(x, m) - 1,
{
    let whole = power_less_one(m);
    let low = whole.drop_last();
    let only = seq![-1int];
    lemma_evaluation_constant(only, x);
    assert forall|k: int| 0 <= k < low.len() implies #[trigger] low[k] == transform::coefficient(
        only,
        k,
    ) by {}
    transform::lemma_evaluation_padded(only, low, x);
    assert(whole.last() == 1);
    assert(1 * power::pow(x, m) == power::pow(x, m));
}

/// Modulo a prime `p`, one of the numbers `1 ..= m + 1` is no root of the
/// power `m` of the variable less one. That number is returned.
pub proof fn lemma_no_root(p: nat, m: nat) -> (a: int)
    requires
        prime::is_prime_number(p),
        1 <= m,
        m + 1 < p,
    ensures
        1 <= a <= m + 1,
        power::pow(a, m) % (p as int) != 1,
{
    let roots = Seq::new(m + 1, |i: int| i + 1);
    let unit = power_less_one(m);
    div_mod::lemma_small_mod(1, p);
    div_mod::lemma_small_mod(0, p);
    let i = lemma_root_bound(unit, roots, p);
    lemma_power_less_one(m, roots[i]);
    if power::pow(roots[i], m) % (p as int) == 1 {
        transform::lemma_congruent_sum(power::pow(roots[i], m), 1, 1, 1, p as int);
    }
    roots[i]
}

/// A power of a number whose power `e` is `1` modulo `p`, with an
/// exponent that is a multiple of `e`, is `1` modulo `p`.
pub proof fn lemma_power_one(y: int, e: nat, k: nat, p: int)
    requires
        p >= 2,
        power::pow(y, e) % p == 1,
    ensures
        power::pow(y, e * k) % p == 1,
        power::pow(y, k * e) % p == 1,
{
    power::lemma_pow_multiplies(y, e, k);
    div_mod::lemma_small_mod(1, p as nat);
    transform::lemma_congruent_power(power::pow(y, e), 1, k, p);
    power::lemma1_pow(k);
    assert(e * k == k * e) by (nonlinear_arith);
}

/// A number whose powers `a` and `b` are `1` modulo `p`, for `a` and `b`
/// without a common divisor, is itself `1` modulo `p`.
pub proof fn lemma_coprime_one(y: int, a: nat, b: nat, p: int)
    requires
        p >= 2,
        a >= 1,
        b >= 1,
        power::pow(y, a) % p == 1,
        power::pow(y, b) % p == 1,
        gcd::gcd_of(a, b) == 1,
    ensures
        y % p == 1,
{
    let (u, v) = gcd::lemma_bezout(a, b);
    div_mod::lemma_small_mod(1, p as nat);
    power::lemma_pow1(y);
    if u >= 1 {
        assert(v <= 0) by (nonlinear_arith)
            requires
                a * u + b * v == 1,
                a >= 1,
                u >= 1,
                b >= 1,
        ;
        let (k, l) = (u as nat, (-v) as nat);
        assert(a * k == 1 + b * l) by (nonlinear_arith)
            requires
                a * u + b * v == 1,
                k == u,
                l == -v,
        ;
        lemma_power_one(y, a, k, p);
        lemma_power_one(y, b, l, p);
        power::lemma_pow_adds(y, 1, b * l);
        transform::lemma_congruent_product(y, y, power::pow(y, b * l), 1, p);
        assert(y * 1 == y);
    } else {
        assert(v >= 1) by (nonlinear_arith)
            requires
                a * u + b * v == 1,
                a >= 1,
                u <= 0,
                b >= 1,
        ;
        let (k, l) = (v as nat, (-u) as nat);
        assert(b * k == 1 + a * l) by (nonlinear_arith)
            requires
                a * u + b * v == 1,
                k == v,
                l == -u,
        ;
        lemma_power_one(y, b, k, p);
        lemma_power_one(y, a, l, p);
        power::lemma_pow_adds(y, 1, a * l);
        transform::lemma_congruent_product(y, y, power::pow(y, a * l), 1, p);
        assert(y * 1 == y);
    }
}

/// What divides a divisor of a number divides the number.
pub proof fn lemma_divides_transitive(a: nat, b: nat, c: nat)
    requires
        a > 0,
        b > 0,
        b % a == 0,
        c % b == 0,
    ensures
        c % a == 0,
{
    gcd::lemma_quotient(b as int, a as int);
    gcd::lemma_quotient(c as int, b as int);
    let (j, k) = (b as int / a as int, c as int / b as int);
    assert(c == (k * j) * a) by (nonlinear_arith)
        requires
            b == j * a,
            c == k * b,
    ;
    gcd::lemma_multiple(k * j, a as int);
}

/// A number greater than `1` has a prime divisor, which is returned.
pub proof fn lemma_prime_divisor(d: nat) -> (q: nat)
    requires
        d >= 2,
    ensures
        prime::is_prime_number(q),
        d % q == 0,
        q <= d,
    decreases d,
{
    if prime::is_prime_number(d) {
        div_mod::lemma_mod_self_0(d as int);
        d
    } else {
        let c = choose|c: nat| 1 < c < d && #[trigger] (d % c) == 0;
        let q = lemma_prime_divisor(c);
        lemma_divides_transitive(q, c, d);
        q
    }
}

/// A prime and a number that it does not divide have no common divisor.
pub proof fn lemma_gcd_prime(q: nat, c: nat)
    requires
        prime::is_prime_number(q),
        c >= 1,
        c % q != 0,
    ensures
        gcd::gcd_of(q, c) == 1,
{
    let g = gcd::gcd_of(q, c);
    gcd::lemma_gcd_of(q, c);
    assert(gcd::is_common_divisor(g, q, c));
    gcd::lemma_divisor_bound(g, q);
    if 1 < g < q {
        assert(q % g != 0);
    }
}

/// A prime does not divide the powers of another prime.
pub proof fn lemma_prime_power(r: nat, q: nat, e: nat)
    requires
        prime::is_prime_number(r),
        prime::is_prime_number(q),
        r != q,
    ensures
        power::pow(q as int, e) % (r as int) != 0,
        power::pow(q as int, e) >= 1,
    decreases e,
{
    reveal(power::pow);
    power::lemma_pow_positive(q as int, e);
    if e == 0 {
        div_mod::lemma_small_mod(1, r);
    } else {
        lemma_prime_power(r, q, (e - 1) as nat);
        if power::pow(q as int, e) % (r as int) == 0 {
            fermat::lemma_prime_divides_product(r, q as int, power::pow(q as int, (e - 1) as nat));
            gcd::lemma_divisor_bound(r, q);
            assert(q % r != 0);
        }
    }
}

/// A number that a prime `q` divides is a power of `q` times a number
/// that `q` does not divide. The exponent and that number are returned.
pub proof fn lemma_prime_part(d: nat, q: nat) -> (ec: (nat, nat))
    requires
        d >= 1,
        prime::is_prime_number(q),
        d % q == 0,
    ensures
        ec.0 >= 1,
        ec.1 >= 1,
        d == power::pow(q as int, ec.0) * ec.1,
        ec.1 % q != 0,
    decreases d,
{
    reveal(power::pow);
    gcd::lemma_quotient(d as int, q as int);
    let h = d / q;
    assert(1 <= h < d) by (nonlinear_arith)
        requires
            d == q * h,
            d >= 1,
            q >= 2,
            h >= 0,
    ;
    if h % q != 0 {
        power::lemma_pow1(q as int);
        (1, h)
    } else {
        let (e, c) = lemma_prime_part(h, q);
        let w = power::pow(q as int, e);
        assert(q * (w * c) == (q * w) * c) by (nonlinear_arith);
        (e + 1, c)
    }
}

/// Modulo a prime `p`, for a power of a prime `q` that divides `p - 1`,
/// some number has that power as its order: its power `q^e` is `1`, and
/// its power `q^(e - 1)` is not. The number is returned.
pub proof fn lemma_prime_power_order(p: nat, q: nat, e: nat) -> (b: int)
    requires
        prime::is_prime_number(p),
        prime::is_prime_number(q),
        e >= 1,
        (p - 1) % power::pow(q as int, e) == 0,
    ensures
        b >= 1,
        power::pow(q as int, e) >= 1,
        power::pow(q as int, (e - 1) as nat) >= 1,
        power::pow(b, power::pow(q as int, e) as nat) % (p as int) == 1,
        power::pow(b, power::pow(q as int, (e - 1) as nat) as nat) % (p as int) != 1,
{
    reveal(power::pow);
    let n = (p - 1) as int;
    let whole = power::pow(q as int, e);
    let less = power::pow(q as int, (e - 1) as nat);
    power::lemma_pow_positive(q as int, e);
    power::lemma_pow_positive(q as int, (e - 1) as nat);
    gcd::lemma_quotient(n, whole);
    let k = n / whole;
    let m = less * k;
    assert(n == q * m) by (nonlinear_arith)
        requires
            n == whole * k,
            whole == q * less,
            m == less * k,
    ;
    assert(1 <= k && 1 <= m && m + 1 < p) by (nonlinear_arith)
        requires
            n == q * m,
            n == whole * k,
            m == less * k,
            q >= 2,
            n >= 1,
            whole >= 1,
            less >= 1,
            p == n + 1,
    ;
    let a = lemma_no_root(p, m as nat);
    div_mod::lemma_small_mod(a as nat, p);
    fermat::lemma_fermat(p, a as nat);
    power::lemma_pow_positive(a, k as nat);
    let b = power::pow(a, k as nat);
    power::lemma_pow_multiplies(a, k as nat, whole as nat);
    power::lemma_pow_multiplies(a, k as nat, less as nat);
    assert(k * whole == n && k * less == m) by (nonlinear_arith)
        requires
            n == whole * k,
            m == less * k,
    ;
    b
}

/// Modulo a prime `p`, for every divisor `d` of `p - 1` some number has
/// the order `d`: its power `d` is `1`, and its power `d / r` is not, for
/// any prime `r` that divides `d`. The number is returned.
pub proof fn lemma_order(p: nat, d: nat) -> (g: int)
    requires
        prime::is_prime_number(p),
        d >= 1,
        (p - 1) % (d as int) == 0,
    ensures
        g >= 1,
        power::pow(g, d) % (p as int) == 1,
        forall|r: nat| #[trigger]
            prime::is_prime_number(r) && d % r == 0 ==> power::pow(g, d / r) % (p as int) != 1,
    decreases d,
{
    let m = p as int;
    div_mod::lemma_small_mod(1, p);
    if d == 1 {
        power::lemma_pow1(1);
        assert forall|r: nat| #[trigger] prime::is_prime_number(r) && d % r == 0 implies power::pow(
            1,
            d / r,
        ) % m != 1 by {
            div_mod::lemma_small_mod(1, r);
        }
        1
    } else {
        let q = lemma_prime_divisor(d);
        let (e, c) = lemma_prime_part(d, q);
        let whole = power::pow(q as int, e);
        let less = power::pow(q as int, (e - 1) as nat);
        power::lemma_pow_positive(q as int, e);
        power::lemma_pow_positive(q as int, (e - 1) as nat);
        assert(whole == q * less) by {
            reveal(power::pow);
        }
        // `c` and the power of `q` divide `d`, and so `p - 1`
        gcd::lemma_multiple(whole, c as int);
        gcd::lemma_multiple(c as int, whole);
        assert(c < d) by (nonlinear_arith)
            requires
                d == whole * c,
                whole == q * less,
                q >= 2,
                less >= 1,
                c >= 1,
        ;
        lemma_divides_transitive(c, d, (p - 1) as nat);
        lemma_divides_transitive(whole as nat, d, (p - 1) as nat);
        let h = lemma_order(p, c);
        let b = lemma_prime_power_order(p, q, e);
        let g = h * b;
        assert(g >= 1) by (nonlinear_arith)
            requires
                g == h * b,
                h >= 1,
                b >= 1,
        ;
        // the power `d` of `g`
        power::lemma_pow_distributes(h, b, d);
        lemma_power_one(h, c, whole as nat, m);
        lemma_power_one(b, whole as nat, c, m);
        assert(c * whole == d && whole * c == d) by (nonlinear_arith)
            requires
                d == whole * c,
        ;
        transform::lemma_congruent_product(power::pow(h, d), 1, power::pow(b, d), 1, m);
        assert forall|r: nat| #[trigger] prime::is_prime_number(r) && d % r == 0 implies power::pow(
            g,
            d / r,
        ) % m != 1 by {
            let s = d / r;
            gcd::lemma_quotient(d as int, r as int);
            power::lemma_pow_distributes(h, b, s);
            if r == q {
                // the power of `h` is `1`, and that of `b` is not
                assert(s == less * c) by (nonlinear_arith)
                    requires
                        d == whole * c,
                        whole == q * less,
                        d == q * s,
                        q >= 2,
                ;
                lemma_power_one(h, c, less as nat, m);
                assert(c * less == s) by (nonlinear_arith)
                    requires
                        s == less * c,
                ;
                let y = power::pow(b, less as nat);
                power::lemma_pow_multiplies(b, less as nat, c);
                power::lemma_pow_multiplies(b, less as nat, q);
                assert(less * q == whole) by (nonlinear_arith)
                    requires
                        whole == q * less,
                ;
                if power::pow(y, c) % m == 1 {
                    lemma_gcd_prime(q, c);
                    lemma_coprime_one(y, q, c, m);
                }
                transform::lemma_congruent_product(power::pow(h, s), 1, power::pow(b, s), power::pow(b, s), m);
                assert(1 * power::pow(b, s) == power::pow(b, s));
            } else {
                // `r` divides `c`: the power of `b` is `1`, and that of `h` is not
                lemma_prime_power(r, q, e);
                fermat::lemma_prime_divides_product(r, whole, c as int);
                gcd::lemma_quotient(c as int, r as int);
                let t = c / r;
                assert(s == whole * t) by (nonlinear_arith)
                    requires
                        d == whole * c,
                        c == r * t,
                        d == r * s,
                        r >= 2,
                ;
                lemma_power_one(b, whole as nat, t, m);
                let z = power::pow(h, t);
                assert(power::pow(z, 1) == z) by {
                    power::lemma_pow1(z);
                }
                power::lemma_pow_multiplies(h, t, whole as nat);
                power::lemma_pow_multiplies(h, t, r);
                assert(t * r == c && t * whole == s) by (nonlinear_arith)
                    requires
                        c == r * t,
                        s == whole * t,
                ;
                assert(power::pow(h, c / r) % m != 1);
                if power::pow(z, whole as nat) % m == 1 {
                    lemma_gcd_prime(r, whole as nat);
                    lemma_coprime_one(z, r, whole as nat, m);
                }
                transform::lemma_congruent_product(power::pow(h, s), power::pow(h, s), power::pow(b, s), 1, m);
                assert(power::pow(h, s) * 1 == power::pow(h, s));
            }
        }
        g
    }
}

/// Each number of a sequence divides the product of the sequence.
pub proof fn lemma_factor_divides(factors: Seq<u64>, i: int)
    requires
        0 <= i < factors.len(),
        factors[i] > 0,
    ensures
        prime::product(factors) % (factors[i] as nat) == 0,
    decreases factors.len(),
{
    let rest = factors.drop_last();
    let f = factors[i] as int;
    assert(rest.push(factors.last()) =~= factors);
    prime::lemma_product_push(rest, factors.last());
    if i == factors.len() - 1 {
        gcd::lemma_multiple(prime::product(rest) as int, f);
    } else {
        lemma_factor_divides(rest, i);
        gcd::lemma_quotient(prime::product(rest) as int, f);
        let k = prime::product(rest) as int / f;
        assert(prime::product(rest) * factors.last() == (k * factors.last()) * f) by (nonlinear_arith)
            requires
                prime::product(rest) == k * f,
        ;
        gcd::lemma_multiple(k * factors.last(), f);
    }
}

/// Every prime greater than `2` has a primitive root: a number that
/// passes for one with whatever factorization of `p - 1`.
pub proof fn lemma_has_generator(p: nat)
    requires
        prime::is_prime_number(p),
        3 <= p <= u64::MAX,
    ensures
        prime::has_generator(p),
{
    let m = p as int;
    let n = (p - 1) as nat;
    div_mod::lemma_mod_self_0(n as int);
    let whole = lemma_order(p, n);
    let g = whole % m;
    div_mod::lemma_mod_bound(whole, m);
    div_mod::lemma_small_mod(1, p);
    div_mod::lemma_small_mod(0, p);
    // `g` is neither `0` nor `1`
    power::lemma_pow_mod_noop(whole, n, m);
    if g == 0 {
        power::lemma0_pow(n);
    }
    let first = lemma_prime_divisor(n);
    power::lemma_pow_mod_noop(whole, n / first, m);
    if g == 1 {
        power::lemma1_pow(n / first);
    }
    assert forall|factors: Seq<u64>| #[trigger]
        prime::is_factorization(factors, n) implies exists|h: u64|
        2 <= h < p && #[trigger] prime::is_generator(p, h as nat, factors) by {
        assert forall|i: int| 0 <= i < factors.len() implies #[trigger] power::pow(
            g,
            n / (factors[i] as nat),
        ) % m != 1 by {
            let f = factors[i] as nat;
            assert(prime::is_probable_prime(f));
            lemma_factor_divides(factors, i);
            let q = lemma_prime_divisor(f);
            lemma_divides_transitive(q, f, n);
            gcd::lemma_quotient(n as int, f as int);
            gcd::lemma_quotient(f as int, q as int);
            gcd::lemma_quotient(n as int, q as int);
            let (s, t) = (n / f, f / q);
            assert(s * t == n / q) by (nonlinear_arith)
                requires
                    n == f * s,
                    f == q * t,
                    n == q * (n / q),
                    q >= 2,
            ;
            power::lemma_pow_mod_noop(whole, s, m);
            if power::pow(whole, s) % m == 1 {
                lemma_power_one(whole, s, t, m);
            }
        }
        assert(prime::is_generator(p, (g as u64) as nat, factors));
    }
}

} // verus!
