//! The transform that the NTT computes, stated on sequences of integers.
//!
//! The NTT of a sequence `a` holds the values of the polynomial with the
//! coefficients `a` at as many points as `a` has elements. The points are
//! powers of a root of unity, in the order in which the butterflies leave
//! them: the points of the blocks `2 i` and `2 i + 1` are the two square
//! roots of the point of the block `i`.

use vstd::arithmetic::div_mod;
use vstd::arithmetic::power;
use vstd::arithmetic::power2;
use vstd::prelude::*;

verus! {

/// `x` and `y` leave the same remainder modulo `p`.
pub open spec fn is_congruent(x: int, y: int, p: int) -> bool {
    x % p == y % p
}

/// Sums of congruent numbers are congruent.
pub proof fn lemma_congruent_sum(x: int, u: int, y: int, v: int, p: int)
    requires
        p > 0,
        is_congruent(x, u, p),
        is_congruent(y, v, p),
    ensures
        is_congruent(x + y, u + v, p),
        is_congruent(x - y, u - v, p),
{
    div_mod::lemma_add_mod_noop(x, y, p);
    div_mod::lemma_add_mod_noop(u, v, p);
    div_mod::lemma_sub_mod_noop(x, y, p);
    div_mod::lemma_sub_mod_noop(u, v, p);
}

/// Products of congruent numbers are congruent.
pub proof fn lemma_congruent_product(x: int, u: int, y: int, v: int, p: int)
    requires
        p > 0,
        is_congruent(x, u, p),
        is_congruent(y, v, p),
    ensures
        is_congruent(x * y, u * v, p),
{
    div_mod::lemma_mul_mod_noop_general(x, y, p);
    div_mod::lemma_mul_mod_noop_general(u, v, p);
}

/// Powers of congruent numbers are congruent.
pub proof fn lemma_congruent_power(x: int, u: int, e: nat, p: int)
    requires
        p > 0,
        is_congruent(x, u, p),
    ensures
        is_congruent(power::pow(x, e), power::pow(u, e), p),
    decreases e,
{
    reveal(power::pow);
    if e > 0 {
        lemma_congruent_power(x, u, (e - 1) as nat, p);
        lemma_congruent_product(x, u, power::pow(x, (e - 1) as nat), power::pow(u, (e - 1) as nat), p);
    }
}

/// A number is congruent to its remainder.
pub proof fn lemma_congruent_remainder(x: int, p: int)
    requires
        p > 0,
    ensures
        is_congruent(x % p, x, p),
        0 <= x % p < p,
{
    div_mod::lemma_mod_twice(x, p);
    div_mod::lemma_mod_bound(x, p);
}

/// The number of trailing one bits of `i`.
pub open spec fn ones(i: nat) -> nat
    decreases i,
{
    if i % 2 == 0 {
        0
    } else {
        1 + ones(i / 2)
    }
}

/// A number with `c` trailing one bits is at least `2^c - 1`.
pub proof fn lemma_ones_bound(i: nat)
    ensures
        power2::pow2(ones(i)) <= i + 1,
    decreases i,
{
    power2::lemma2_to64();
    if i % 2 == 1 {
        lemma_ones_bound(i / 2);
        power2::lemma_pow2_unfold(ones(i));
    }
}

/// The factor with which the butterflies of block `i` multiply: the
/// product, modulo `p`, of the roots of the levels that the transform
/// moves on by after the blocks before `i`.
pub open spec fn factor(roots: Seq<int>, p: int, i: nat) -> int
    decreases i,
{
    if i == 0 {
        1int % p
    } else {
        (factor(roots, p, (i - 1) as nat) * roots[ones((i - 1) as nat) as int]) % p
    }
}

/// The point at which the transform has the value of the polynomial at
/// position `idx`: the factor of the block `idx / 2`, or its negative.
pub open spec fn point(roots: Seq<int>, p: int, idx: nat) -> int {
    if idx % 2 == 0 {
        factor(roots, p, idx / 2)
    } else {
        (p - factor(roots, p, idx / 2)) % p
    }
}

/// The value at `x` of the polynomial with the coefficients `a`.
pub open spec fn evaluation(a: Seq<int>, x: int) -> int
    decreases a.len(),
{
    if a.len() == 0 {
        0
    } else {
        evaluation(a.drop_last(), x) + a.last() * power::pow(x, (a.len() - 1) as nat)
    }
}

/// The transform of `a` modulo `p` with the roots given: the values of the
/// polynomial with the coefficients `a` at the points of the roots.
pub open spec fn transform(a: Seq<int>, roots: Seq<int>, p: int) -> Seq<int> {
    Seq::new(a.len(), |idx: int| evaluation(a, point(roots, p, idx as nat)) % p)
}

/// The roots are roots for transforms of `m` levels, that is of `2^m`
/// elements: the first is a square root of `-1`, and each is the negative
/// of the square of the next.
pub open spec fn is_good(roots: Seq<int>, p: int, m: nat) -> bool {
    &&& p >= 2
    &&& roots.len() + 1 >= m
    &&& m >= 2 ==> (roots[0] * roots[0] + 1) % p == 0
    &&& forall|l: int|
        1 <= l && l + 2 <= m ==> (roots[l - 1] + #[trigger] roots[l] * roots[l]) % p == 0
}

/// The roots `inverse` are the inverses modulo `p` of the roots `forward`,
/// as far as transforms of `m` levels take them.
pub open spec fn is_inverse(forward: Seq<int>, inverse: Seq<int>, p: int, m: nat) -> bool {
    &&& inverse.len() + 1 >= m
    &&& forall|l: int| 0 <= l && l + 2 <= m ==> (forward[l] * #[trigger] inverse[l]) % p == 1
}

/// The sum of `count` terms of the polynomial with the coefficients `a` at
/// `x`, from the term `j` on and `w` apart, taken as the terms of a
/// polynomial in the power `w` of the variable.
pub open spec fn folded(a: Seq<int>, w: nat, x: int, j: int, count: nat) -> int
    decreases count,
{
    if count == 0 {
        0
    } else {
        folded(a, w, x, j, (count - 1) as nat) + a[j + (count - 1) * w] * power::pow(
            x,
            (count - 1) as nat,
        )
    }
}

/// What the transform holds at position `idx` when its blocks are `w`
/// wide: a coefficient of the remainder of the polynomial modulo the
/// power `w` of the variable less the point of the block.
pub open spec fn state(a: Seq<int>, roots: Seq<int>, p: int, w: nat, idx: int) -> int {
    folded(a, w, point(roots, p, (idx / (w as int)) as nat), idx % (w as int), a.len() / w) % p
}

/// Sums of terms at congruent points are congruent.
pub proof fn lemma_folded_congruent(a: Seq<int>, w: nat, x: int, y: int, j: int, count: nat, p: int)
    requires
        p > 0,
        is_congruent(x, y, p),
    ensures
        is_congruent(folded(a, w, x, j, count), folded(a, w, y, j, count), p),
    decreases count,
{
    if count > 0 {
        let c = (count - 1) as nat;
        lemma_folded_congruent(a, w, x, y, j, c, p);
        lemma_congruent_power(x, y, c, p);
        let k = a[j + c * w];
        lemma_congruent_product(k, k, power::pow(x, c), power::pow(y, c), p);
        lemma_congruent_sum(
            folded(a, w, x, j, c),
            folded(a, w, y, j, c),
            k * power::pow(x, c),
            k * power::pow(y, c),
            p,
        );
    }
}

/// The terms of a polynomial are those in the even powers and those in
/// the odd powers.
pub proof fn lemma_folded_split(a: Seq<int>, t: nat, c: int, j: int, count: nat)
    ensures
        folded(a, t, c, j, 2 * count) == folded(a, 2 * t, c * c, j, count) + c * folded(
            a,
            2 * t,
            c * c,
            j + t,
            count,
        ),
    decreases count,
{
    if count > 0 {
        let k = (count - 1) as nat;
        lemma_folded_split(a, t, c, j, k);
        let even = a[j + (2 * k) * t];
        let odd = a[j + (2 * k + 1) * t];
        assert(folded(a, t, c, j, 2 * count) == folded(a, t, c, j, (2 * k + 1) as nat) + odd
            * power::pow(c, (2 * k + 1) as nat));
        assert(folded(a, t, c, j, (2 * k + 1) as nat) == folded(a, t, c, j, 2 * k) + even
            * power::pow(c, 2 * k));
        assert(j + k * (2 * t) == j + (2 * k) * t) by (nonlinear_arith);
        assert(j + t + k * (2 * t) == j + (2 * k + 1) * t) by (nonlinear_arith);
        let s = power::pow(c * c, k);
        assert(s == power::pow(c, 2 * k)) by {
            power::lemma_pow_multiplies(c, 2, k);
            power::lemma_square_is_pow2(c);
        }
        assert(power::pow(c, (2 * k + 1) as nat) == c * s) by {
            reveal(power::pow);
        }
        let (f, g) = (folded(a, 2 * t, c * c, j, k), folded(a, 2 * t, c * c, j + t, k));
        assert(folded(a, 2 * t, c * c, j, count) == f + even * s);
        assert(folded(a, 2 * t, c * c, j + t, count) == g + odd * s);
        assert(c * (g + odd * s) == c * g + odd * (c * s)) by (nonlinear_arith);
    }
}

/// The sum of all the terms, one apart, is the value of the polynomial.
pub proof fn lemma_folded_evaluation(a: Seq<int>, x: int, count: nat)
    requires
        count <= a.len(),
    ensures
        folded(a, 1, x, 0, count) == evaluation(a.take(count as int), x),
    decreases count,
{
    if count > 0 {
        lemma_folded_evaluation(a, x, (count - 1) as nat);
        assert(a.take(count as int).drop_last() =~= a.take(count - 1));
    }
}

/// The remainder of `p - c` is congruent to the negative of `c`.
pub proof fn lemma_congruent_negative(c: int, p: int)
    requires
        p > 0,
    ensures
        is_congruent((p - c) % p, -c, p),
{
    lemma_congruent_remainder(p - c, p);
    div_mod::lemma_mod_add_multiples_vanish(-c, p);
}

/// A number whose sum with `y` is a multiple of `p` is congruent to the
/// negative of `y`.
pub proof fn lemma_congruent_opposite(x: int, y: int, p: int)
    requires
        p > 0,
        (x + y) % p == 0,
    ensures
        is_congruent(x, -y, p),
{
    div_mod::lemma_small_mod(0, p as nat);
    lemma_congruent_sum(x + y, 0, y, y, p);
}

/// With good roots, the factor of the block `i` is congruent to the square
/// of the factor of the block `2 i`.
pub proof fn lemma_factor_square(roots: Seq<int>, p: int, m: nat, i: nat)
    requires
        is_good(roots, p, m),
        m >= 2,
        i < power2::pow2((m - 2) as nat),
    ensures
        is_congruent(factor(roots, p, 2 * i) * factor(roots, p, 2 * i), factor(roots, p, i), p),
    decreases i,
{
    div_mod::lemma_small_mod(1, p as nat);
    if i > 0 {
        let s = (i - 1) as nat;
        lemma_factor_square(roots, p, m, s);
        let o = ones(s);
        lemma_ones_bound(s);
        if o + 2 >= m {
            if o + 2 > m {
                power2::lemma_pow2_strictly_increases((m - 2) as nat, o);
            }
        }
        assert(ones(2 * s) == 0);
        assert((2 * s + 1) / 2 == s);
        assert(ones(2 * s + 1) == 1 + o);
        let (a, b) = (factor(roots, p, 2 * s), factor(roots, p, s));
        let (r0, r1, ro) = (roots[0], roots[o + 1 as int], roots[o as int]);
        let f1 = factor(roots, p, 2 * s + 1);
        let f2 = factor(roots, p, 2 * i);
        assert(f1 == (a * r0) % p);
        assert(f2 == (f1 * r1) % p);
        assert((ro + r1 * r1) % p == 0);
        lemma_congruent_remainder(a * r0, p);
        lemma_congruent_product(f1, a * r0, r1, r1, p);
        lemma_congruent_remainder(f1 * r1, p);
        // the factor of the block `2 i` is congruent to `a r0 r1`
        let f = (a * r0) * r1;
        lemma_congruent_product(f2, f, f2, f, p);
        assert(f * f == ((a * a) * (r0 * r0)) * (r1 * r1)) by (nonlinear_arith)
            requires
                f == (a * r0) * r1,
        ;
        assert(r1 * r1 + ro == ro + r1 * r1);
        lemma_congruent_opposite(r0 * r0, 1, p);
        lemma_congruent_opposite(r1 * r1, ro, p);
        lemma_congruent_product(a * a, b, r0 * r0, -1, p);
        lemma_congruent_product((a * a) * (r0 * r0), b * (-1), r1 * r1, -ro, p);
        assert((b * (-1)) * (-ro) == b * ro) by (nonlinear_arith);
        lemma_congruent_remainder(b * ro, p);
    } else {
        assert(factor(roots, p, 0) == 1);
        assert(factor(roots, p, 2 * i) * factor(roots, p, 2 * i) == 1) by (nonlinear_arith)
            requires
                factor(roots, p, 2 * i) == 1,
        ;
    }
}

/// With good roots, the point of the block `i` is congruent to the square
/// of the factor of the block `i`.
pub proof fn lemma_point_square(roots: Seq<int>, p: int, m: nat, i: nat)
    requires
        is_good(roots, p, m),
        m >= 1,
        i < power2::pow2((m - 1) as nat),
    ensures
        is_congruent(factor(roots, p, i) * factor(roots, p, i), point(roots, p, i), p),
{
    div_mod::lemma_small_mod(1, p as nat);
    power2::lemma2_to64();
    if i > 0 {
        power2::lemma_pow2_unfold((m - 1) as nat);
        let h = i / 2;
        lemma_factor_square(roots, p, m, h);
        let (a, b) = (factor(roots, p, 2 * h), factor(roots, p, h));
        if i % 2 == 1 {
            let r0 = roots[0];
            assert(ones(2 * h) == 0);
            let f = factor(roots, p, i);
            assert(f == (a * r0) % p);
            lemma_congruent_remainder(a * r0, p);
            lemma_congruent_product(f, a * r0, f, a * r0, p);
            assert((a * r0) * (a * r0) == (a * a) * (r0 * r0)) by (nonlinear_arith);
            lemma_congruent_opposite(r0 * r0, 1, p);
            lemma_congruent_product(a * a, b, r0 * r0, -1, p);
            assert(b * (-1) == -b);
            lemma_congruent_negative(b, p);
        }
    } else {
        assert(factor(roots, p, 0) == 1);
        assert(factor(roots, p, i) * factor(roots, p, i) == 1) by (nonlinear_arith)
            requires
                factor(roots, p, i) == 1,
        ;
    }
}

/// A butterfly takes two coefficients of the remainder modulo the power
/// `2 t` of the variable less `c^2` to a coefficient of the remainder
/// modulo the power `t` less `c`, and one of that modulo the power `t`
/// plus `c`.
pub proof fn lemma_butterfly(
    a: Seq<int>,
    t: nat,
    count: nat,
    square: int,
    c: int,
    j: int,
    p: int,
)
    requires
        p > 0,
        is_congruent(c * c, square, p),
    ensures
        ({
            let x = folded(a, 2 * t, square, j, count) % p;
            let y = folded(a, 2 * t, square, j + t, count) % p;
            &&& (x + (y * c) % p) % p == folded(a, t, c, j, 2 * count) % p
            &&& (x - (y * c) % p) % p == folded(a, t, (p - c) % p, j, 2 * count) % p
        }),
{
    let x = folded(a, 2 * t, square, j, count) % p;
    let y = folded(a, 2 * t, square, j + t, count) % p;
    let f = folded(a, 2 * t, c * c, j, count);
    let g = folded(a, 2 * t, c * c, (j + t) as int, count);
    lemma_folded_congruent(a, 2 * t, square, c * c, j, count, p);
    lemma_folded_congruent(a, 2 * t, square, c * c, j + t, count, p);
    lemma_congruent_remainder(folded(a, 2 * t, square, j, count), p);
    lemma_congruent_remainder(folded(a, 2 * t, square, j + t, count), p);
    lemma_congruent_product(y, g, c, c, p);
    lemma_congruent_remainder(y * c, p);
    lemma_congruent_sum(x, f, (y * c) % p, g * c, p);
    lemma_folded_split(a, t, c, j, count);
    assert(c * g == g * c) by (nonlinear_arith);
    lemma_folded_split(a, t, -c, j, count);
    assert((-c) * (-c) == c * c) by (nonlinear_arith);
    assert((-c) * g == -(g * c)) by (nonlinear_arith);
    lemma_congruent_negative(c, p);
    lemma_folded_congruent(a, t, (p - c) % p, -c, j, 2 * count, p);
}

/// What the elements `j` and `t + j` of the block `i` of a transform with
/// blocks `2 t` wide are, and what the elements `j` of the blocks `2 i`
/// and `2 i + 1` of a transform with blocks `t` wide.
pub proof fn lemma_state_blocks(
    a: Seq<int>,
    roots: Seq<int>,
    p: int,
    t: nat,
    count: nat,
    i: nat,
    j: nat,
)
    requires
        t >= 1,
        a.len() == 2 * t * count,
        i < count,
        j < t,
    ensures
        ({
            let c = factor(roots, p, i);
            let square = point(roots, p, i);
            let base = (i * (2 * t)) as int;
            &&& base + 2 * t <= a.len()
            &&& state(a, roots, p, 2 * t, base + j) == folded(a, 2 * t, square, j as int, count) % p
            &&& state(a, roots, p, 2 * t, base + t + j) == folded(
                a,
                2 * t,
                square,
                (j + t) as int,
                count,
            ) % p
            &&& state(a, roots, p, t, base + j) == folded(a, t, c, j as int, 2 * count) % p
            &&& state(a, roots, p, t, base + t + j) == folded(
                a,
                t,
                (p - c) % p,
                j as int,
                2 * count,
            ) % p
        }),
{
    let base = (i * (2 * t)) as int;
    let w = (2 * t) as int;
    assert(base + 2 * t <= a.len()) by (nonlinear_arith)
        requires
            base == i * (2 * t),
            i + 1 <= count,
            a.len() == 2 * t * count,
    ;
    div_mod::lemma_fundamental_div_mod_converse(base + j, w, i as int, j as int);
    div_mod::lemma_fundamental_div_mod_converse(base + t + j, w, i as int, (t + j) as int);
    assert(base == (2 * i) * t) by (nonlinear_arith)
        requires
            base == i * (2 * t),
    ;
    assert(base + t == (2 * i + 1) * t) by (nonlinear_arith)
        requires
            base == i * (2 * t),
    ;
    div_mod::lemma_fundamental_div_mod_converse(base + j, t as int, (2 * i) as int, j as int);
    div_mod::lemma_fundamental_div_mod_converse(base + t + j, t as int, (2 * i + 1) as int, j as int);
    assert(a.len() == count * w) by (nonlinear_arith)
        requires
            a.len() == 2 * t * count,
            w == 2 * t,
    ;
    div_mod::lemma_fundamental_div_mod_converse(a.len() as int, w, count as int, 0);
    assert(a.len() == (2 * count) * t) by (nonlinear_arith)
        requires
            a.len() == 2 * t * count,
    ;
    div_mod::lemma_fundamental_div_mod_converse(a.len() as int, t as int, (2 * count) as int, 0);
    assert((2 * i) % 2 == 0 && (2 * i) / 2 == i);
    assert((2 * i + 1) % 2 == 1 && (2 * i + 1) / 2 == i);
}

/// What a butterfly of the block `i` makes of two elements of a transform
/// with blocks `2 t` wide are elements of the transform with blocks `t`
/// wide.
pub proof fn lemma_state_step(
    a: Seq<int>,
    roots: Seq<int>,
    p: int,
    t: nat,
    count: nat,
    i: nat,
    j: nat,
)
    requires
        p >= 2,
        t >= 1,
        a.len() == 2 * t * count,
        i < count,
        j < t,
        is_congruent(factor(roots, p, i) * factor(roots, p, i), point(roots, p, i), p),
    ensures
        ({
            let c = factor(roots, p, i);
            let x = state(a, roots, p, 2 * t, (i * (2 * t) + j) as int);
            let y = state(a, roots, p, 2 * t, (i * (2 * t) + t + j) as int);
            &&& state(a, roots, p, t, (i * (2 * t) + j) as int) == (x + (y * c) % p) % p
            &&& state(a, roots, p, t, (i * (2 * t) + t + j) as int) == (x - (y * c) % p) % p
        }),
{
    lemma_state_blocks(a, roots, p, t, count, i, j);
    lemma_butterfly(a, t, count, point(roots, p, i), factor(roots, p, i), j as int, p);
}

/// With inverse roots, the factors of the blocks are inverses of each
/// other.
pub proof fn lemma_inverse_factor(forward: Seq<int>, inverse: Seq<int>, p: int, m: nat, i: nat)
    requires
        p >= 2,
        is_inverse(forward, inverse, p, m),
        m >= 1,
        i < power2::pow2((m - 1) as nat),
    ensures
        (factor(forward, p, i) * factor(inverse, p, i)) % p == 1,
    decreases i,
{
    div_mod::lemma_small_mod(1, p as nat);
    if i > 0 {
        let s = (i - 1) as nat;
        lemma_inverse_factor(forward, inverse, p, m, s);
        let o = ones(s);
        lemma_ones_bound(s);
        if o + 1 >= m {
            if o + 1 > m {
                power2::lemma_pow2_strictly_increases((m - 1) as nat, o);
            }
        }
        let (a, b) = (factor(forward, p, s), factor(inverse, p, s));
        let (r, q) = (forward[o as int], inverse[o as int]);
        assert((r * q) % p == 1);
        lemma_congruent_remainder(a * r, p);
        lemma_congruent_remainder(b * q, p);
        lemma_congruent_product((a * r) % p, a * r, (b * q) % p, b * q, p);
        assert((a * r) * (b * q) == (a * b) * (r * q)) by (nonlinear_arith);
        lemma_congruent_product(a * b, 1, r * q, 1, p);
    } else {
        assert(factor(forward, p, 0) * factor(inverse, p, 0) == 1) by (nonlinear_arith)
            requires
                factor(forward, p, 0) == 1,
                factor(inverse, p, 0) == 1,
        ;
    }
}

/// What the butterfly of the inverse transform makes of two elements,
/// `s` times those of a transform with blocks `t` wide, are `2 s` times
/// elements of the transform with blocks `2 t` wide.
pub proof fn lemma_state_back(
    a: Seq<int>,
    roots: Seq<int>,
    p: int,
    t: nat,
    count: nat,
    i: nat,
    j: nat,
    s: int,
    inverse: int,
    x: int,
    y: int,
)
    requires
        p >= 2,
        t >= 1,
        a.len() == 2 * t * count,
        i < count,
        j < t,
        is_congruent(factor(roots, p, i) * factor(roots, p, i), point(roots, p, i), p),
        (factor(roots, p, i) * inverse) % p == 1,
        is_congruent(x, s * state(a, roots, p, t, (i * (2 * t) + j) as int), p),
        is_congruent(y, s * state(a, roots, p, t, (i * (2 * t) + t + j) as int), p),
    ensures
        (x + y) % p == (2 * s * state(a, roots, p, 2 * t, (i * (2 * t) + j) as int)) % p,
        (((x - y) % p) * inverse) % p == (2 * s * state(
            a,
            roots,
            p,
            2 * t,
            (i * (2 * t) + t + j) as int,
        )) % p,
{
    let c = factor(roots, p, i);
    let square = point(roots, p, i);
    div_mod::lemma_small_mod(1, p as nat);
    lemma_state_blocks(a, roots, p, t, count, i, j);
    let up = folded(a, t, c, j as int, 2 * count);
    let down = folded(a, t, (p - c) % p, j as int, 2 * count);
    let f = folded(a, 2 * t, c * c, j as int, count);
    let g = folded(a, 2 * t, c * c, (j + t) as int, count);
    let fs = folded(a, 2 * t, square, j as int, count);
    let gs = folded(a, 2 * t, square, (j + t) as int, count);
    lemma_folded_split(a, t, c, j as int, count);
    lemma_folded_split(a, t, -c, j as int, count);
    assert((-c) * (-c) == c * c) by (nonlinear_arith);
    assert((-c) * g == -(c * g)) by (nonlinear_arith);
    lemma_congruent_negative(c, p);
    lemma_folded_congruent(a, t, (p - c) % p, -c, j as int, 2 * count, p);
    lemma_folded_congruent(a, 2 * t, c * c, square, j as int, count, p);
    lemma_folded_congruent(a, 2 * t, c * c, square, (j + t) as int, count, p);
    // `x` is congruent to `s (f + c g)`, and `y` to `s (f - c g)`
    lemma_congruent_remainder(up, p);
    lemma_congruent_remainder(down, p);
    lemma_congruent_product(s, s, up % p, f + c * g, p);
    lemma_congruent_product(s, s, down % p, f - c * g, p);
    lemma_congruent_sum(x, s * (f + c * g), y, s * (f - c * g), p);
    assert(s * (f + c * g) + s * (f - c * g) == (2 * s) * f) by (nonlinear_arith);
    assert(s * (f + c * g) - s * (f - c * g) == ((2 * s) * g) * c) by (nonlinear_arith);
    // the sum
    lemma_congruent_remainder(fs, p);
    lemma_congruent_product(2 * s, 2 * s, f, fs % p, p);
    // the difference, times the inverse
    lemma_congruent_remainder(x - y, p);
    lemma_congruent_product((x - y) % p, ((2 * s) * g) * c, inverse, inverse, p);
    assert((((2 * s) * g) * c) * inverse == ((2 * s) * g) * (c * inverse)) by (nonlinear_arith);
    lemma_congruent_product((2 * s) * g, (2 * s) * g, c * inverse, 1, p);
    lemma_congruent_remainder(gs, p);
    lemma_congruent_product(2 * s, 2 * s, g, gs % p, p);
    assert(2 * s * (fs % p) == (2 * s) * (fs % p));
    assert(2 * s * (gs % p) == (2 * s) * (gs % p));
    assert(((2 * s) * g) * 1 == (2 * s) * g);
}

/// Where `v` is an inverse of two, the power `k` of `v` is one of the
/// power `k` of two.
pub proof fn lemma_halves(v: int, k: nat, p: int)
    requires
        p >= 2,
        (2 * v) % p == 1,
    ensures
        (power2::pow2(k) * power::pow(v, k)) % p == 1,
    decreases k,
{
    reveal(power::pow);
    power2::lemma2_to64();
    div_mod::lemma_small_mod(1, p as nat);
    if k > 0 {
        lemma_halves(v, (k - 1) as nat, p);
        power2::lemma_pow2_unfold(k);
        let (h, w) = (power2::pow2((k - 1) as nat) as int, power::pow(v, (k - 1) as nat));
        assert((2 * h) * (v * w) == (2 * v) * (h * w)) by (nonlinear_arith);
        lemma_congruent_product(2 * v, 1, h * w, 1, p);
    } else {
        assert(power2::pow2(0) * power::pow(v, 0) == 1);
    }
}

/// A transform with one block as wide as the sequence is the sequence.
pub proof fn lemma_state_whole(a: Seq<int>, roots: Seq<int>, p: int, idx: int)
    requires
        p >= 2,
        0 <= idx < a.len(),
        0 <= a[idx] < p,
    ensures
        state(a, roots, p, a.len(), idx) == a[idx],
{
    let n = a.len() as int;
    div_mod::lemma_fundamental_div_mod_converse(idx, n, 0, idx);
    div_mod::lemma_div_by_self(n);
    let x = point(roots, p, 0);
    reveal(power::pow);
    assert(folded(a, a.len(), x, idx, 1) == folded(a, a.len(), x, idx, 0) + a[idx + 0 * n] * power::pow(
        x,
        0,
    ));
    assert(0 * n == 0);
    div_mod::lemma_small_mod(a[idx] as nat, p as nat);
}

/// A transform with blocks one wide holds the values of the polynomial.
pub proof fn lemma_state_final(a: Seq<int>, roots: Seq<int>, p: int, idx: int)
    requires
        0 <= idx < a.len(),
    ensures
        state(a, roots, p, 1, idx) == transform(a, roots, p)[idx],
{
    lemma_folded_evaluation(a, point(roots, p, idx as nat), a.len());
    assert(a.take(a.len() as int) =~= a);
}

/// The coefficient `j` of the polynomial with the coefficients `b`; zero
/// where it has none.
pub open spec fn coefficient(b: Seq<int>, j: int) -> int {
    if 0 <= j < b.len() {
        b[j]
    } else {
        0
    }
}

/// The sum of the products `a[h] * b[k - h]` over the first `i` indices
/// `h`: with all the indices of `a`, the coefficient `k` of the product of
/// the polynomials with the coefficients `a` and `b`.
pub open spec fn product_term(a: Seq<int>, b: Seq<int>, k: int, i: nat) -> int
    decreases i,
{
    if i == 0 {
        0
    } else {
        product_term(a, b, k, (i - 1) as nat) + a[i - 1] * coefficient(b, k - (i - 1))
    }
}

/// The convolution of `a` and `b` modulo `p`: the coefficients of the
/// product of the two polynomials, each reduced modulo `p`.
pub open spec fn convolution(a: Seq<int>, b: Seq<int>, p: int) -> Seq<int> {
    if a.len() == 0 || b.len() == 0 {
        Seq::empty()
    } else {
        Seq::new((a.len() + b.len() - 1) as nat, |k: int| product_term(a, b, k, a.len()) % p)
    }
}

/// The value of a polynomial whose coefficients are sums is the sum of
/// the values.
pub proof fn lemma_evaluation_sum(u: Seq<int>, v: Seq<int>, w: Seq<int>, x: int)
    requires
        u.len() == w.len(),
        v.len() == w.len(),
        forall|k: int| 0 <= k < w.len() ==> #[trigger] w[k] == u[k] + v[k],
    ensures
        evaluation(w, x) == evaluation(u, x) + evaluation(v, x),
    decreases w.len(),
{
    if w.len() > 0 {
        lemma_evaluation_sum(u.drop_last(), v.drop_last(), w.drop_last(), x);
        let e = power::pow(x, (w.len() - 1) as nat);
        assert((u.last() + v.last()) * e == u.last() * e + v.last() * e) by (nonlinear_arith);
    }
}

/// Polynomials with congruent coefficients have congruent values.
pub proof fn lemma_evaluation_congruent(u: Seq<int>, v: Seq<int>, x: int, p: int)
    requires
        p > 0,
        u.len() == v.len(),
        forall|k: int| 0 <= k < u.len() ==> is_congruent(#[trigger] u[k], v[k], p),
    ensures
        is_congruent(evaluation(u, x), evaluation(v, x), p),
    decreases u.len(),
{
    if u.len() > 0 {
        lemma_evaluation_congruent(u.drop_last(), v.drop_last(), x, p);
        let e = power::pow(x, (u.len() - 1) as nat);
        assert(is_congruent(u[u.len() - 1], v[u.len() - 1], p));
        lemma_congruent_product(u.last(), v.last(), e, e, p);
        lemma_congruent_sum(
            evaluation(u.drop_last(), x),
            evaluation(v.drop_last(), x),
            u.last() * e,
            v.last() * e,
            p,
        );
    }
}

/// The polynomial `b`, times `c` and the power `s` of the variable, cut
/// after `n` coefficients.
pub open spec fn shifted(b: Seq<int>, c: int, s: nat, n: nat) -> Seq<int> {
    Seq::new(n, |k: int| c * coefficient(b, k - s))
}

/// The number of coefficients of `b` that are among the first `n` of `b`
/// times the power `s` of the variable.
pub open spec fn kept(b: Seq<int>, s: nat, n: nat) -> int {
    if n <= s {
        0
    } else if n - s >= b.len() {
        b.len() as int
    } else {
        n - s
    }
}

/// The value of a polynomial times a number and a power of the variable is
/// the value of the polynomial times that number and the power.
pub proof fn lemma_evaluation_shifted(b: Seq<int>, c: int, s: nat, n: nat, x: int)
    ensures
        evaluation(shifted(b, c, s, n), x) == (c * power::pow(x, s)) * evaluation(
            b.take(kept(b, s, n)),
            x,
        ),
    decreases n,
{
    let whole = shifted(b, c, s, n);
    if n == 0 {
        assert(b.take(0).len() == 0);
        assert((c * power::pow(x, s)) * 0 == 0);
    } else {
        let m = (n - 1) as nat;
        lemma_evaluation_shifted(b, c, s, m, x);
        assert(whole.drop_last() =~= shifted(b, c, s, m));
        let j = m - s;
        let before = evaluation(b.take(kept(b, s, m)), x);
        if 0 <= j < b.len() {
            assert(b.take(j + 1).drop_last() =~= b.take(j));
            power::lemma_pow_adds(x, s, j as nat);
            let (y, z) = (power::pow(x, s), power::pow(x, j as nat));
            assert((c * b[j]) * (y * z) == (c * y) * (b[j] * z)) by (nonlinear_arith);
            assert((c * y) * (before + b[j] * z) == (c * y) * before + (c * y) * (b[j] * z))
                by (nonlinear_arith);
        } else {
            assert((c * 0) * power::pow(x, m) == 0) by (nonlinear_arith);
        }
    }
}

/// The first `n` coefficients of the sum of the products `a[h] * b[k - h]`
/// over the first `i` indices `h`.
pub open spec fn partial_product(a: Seq<int>, b: Seq<int>, i: nat, n: nat) -> Seq<int> {
    Seq::new(n, |k: int| product_term(a, b, k, i))
}

/// The value of the product of two polynomials is the product of their
/// values.
pub proof fn lemma_evaluation_product(a: Seq<int>, b: Seq<int>, i: nat, n: nat, x: int)
    requires
        i <= a.len(),
        a.len() + b.len() <= n + 1,
    ensures
        evaluation(partial_product(a, b, i, n), x) == evaluation(a.take(i as int), x) * evaluation(
            b,
            x,
        ),
    decreases i,
{
    let whole = partial_product(a, b, i, n);
    if i == 0 {
        lemma_evaluation_shifted(b, 0, 0, n, x);
        assert(whole =~= shifted(b, 0, 0, n));
        assert((0 * power::pow(x, 0)) * evaluation(b.take(kept(b, 0, n)), x) == 0) by (nonlinear_arith);
        assert(a.take(0).len() == 0);
        assert(0 * evaluation(b, x) == 0);
    } else {
        let h = (i - 1) as nat;
        lemma_evaluation_product(a, b, h, n, x);
        lemma_evaluation_shifted(b, a[h as int], h, n, x);
        lemma_evaluation_sum(partial_product(a, b, h, n), shifted(b, a[h as int], h, n), whole, x);
        assert(b.take(b.len() as int) =~= b);
        assert(a.take(i as int).drop_last() =~= a.take(h as int));
        let (u, v, y) = (evaluation(a.take(h as int), x), evaluation(b, x), power::pow(x, h));
        assert(u * v + (a[h as int] * y) * v == (u + a[h as int] * y) * v) by (nonlinear_arith);
    }
}

/// Zero coefficients after the others do not change the value of a
/// polynomial.
pub proof fn lemma_evaluation_padded(a: Seq<int>, b: Seq<int>, x: int)
    requires
        a.len() <= b.len(),
        forall|k: int| 0 <= k < b.len() ==> #[trigger] b[k] == coefficient(a, k),
    ensures
        evaluation(b, x) == evaluation(a, x),
    decreases b.len(),
{
    if b.len() > a.len() {
        lemma_evaluation_padded(a, b.drop_last(), x);
        assert(b.last() == 0);
        assert(0 * power::pow(x, (b.len() - 1) as nat) == 0);
    } else {
        assert(a =~= b);
    }
}

/// Roots for transforms of `m` levels are roots for transforms of fewer.
pub proof fn lemma_fewer_levels(forward: Seq<int>, inverse: Seq<int>, p: int, m: nat, fewer: nat)
    requires
        fewer <= m,
    ensures
        is_good(forward, p, m) ==> is_good(forward, p, fewer),
        is_inverse(forward, inverse, p, m) ==> is_inverse(forward, inverse, p, fewer),
{
}

} // verus!
