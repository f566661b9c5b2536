//! Prime number utilities
//!
//! # Available functions
//!
//! - [`is_prime`]: tests whether a number is prime.
//! - [`divisors`]: all divisors of a number.
//! - [`factorize`]: the prime factors of a number.
//! - [`primitive_root`]: a primitive root modulo a prime number.

use vstd::arithmetic::div_mod;
use vstd::arithmetic::power;
use vstd::arithmetic::power2;
use vstd::prelude::*;
use vstd::seq_lib;

use crate::math::gcd;
use crate::math::miller_rabin;
use crate::math::modint;

verus! {

/// `n` is a prime number: it is greater than `1` and no number strictly
/// between `1` and `n` divides it.
pub open spec fn is_prime_number(n: nat) -> bool {
    n >= 2 && forall|d: nat| 1 < d < n ==> #[trigger] (n % d) != 0
}

/// The number of times that two divides `m`; `0` for `m = 0`.
pub open spec fn valuation(m: nat) -> nat
    decreases m,
{
    if m == 0 || m % 2 == 1 {
        0
    } else {
        1 + valuation(m / 2)
    }
}

/// The odd number that is left of `m` when every factor two is taken out.
pub open spec fn odd_part(m: nat) -> nat {
    m / power2::pow2(valuation(m))
}

/// An odd number times a power of two has that power as the power of two
/// in it, and that odd number as its odd part.
pub proof fn lemma_valuation(m: nat, q: nat, t: nat)
    requires
        q % 2 == 1,
        m == q * power2::pow2(t),
    ensures
        valuation(m) == t,
        odd_part(m) == q,
    decreases t,
{
    let p = power2::pow2(t) as int;
    power2::lemma_pow2_pos(t);
    if t == 0 {
        power2::lemma2_to64();
        assert(q * 1 == q);
    } else {
        power2::lemma_pow2_unfold(t);
        let half = power2::pow2((t - 1) as nat) as int;
        assert(m == 2 * (q * half)) by (nonlinear_arith)
            requires
                m == q * p,
                p == 2 * half,
        ;
        lemma_valuation(m / 2, q, (t - 1) as nat);
    }
    div_mod::lemma_div_by_multiple(q as int, p);
}

/// A positive number is its odd part times the power of two in it.
pub proof fn lemma_decomposition(m: nat)
    requires
        m >= 1,
    ensures
        m == odd_part(m) * power2::pow2(valuation(m)),
        odd_part(m) % 2 == 1,
    decreases m,
{
    if m % 2 == 1 {
        power2::lemma2_to64();
        assert(m == m * power2::pow2(0)) by (nonlinear_arith)
            requires
                power2::pow2(0) == 1,
        ;
        lemma_valuation(m, m, 0);
    } else {
        let half = m / 2;
        lemma_decomposition(half);
        let t = valuation(half);
        let q = odd_part(half);
        power2::lemma_pow2_unfold(t + 1);
        assert(m == q * power2::pow2(t + 1)) by (nonlinear_arith)
            requires
                m == 2 * half,
                half == q * power2::pow2(t),
                power2::pow2(t + 1) == 2 * power2::pow2(t),
        ;
        lemma_valuation(m, q, t + 1);
    }
}

/// `n`, an odd number `>= 3`, is a strong probable prime to the base `a`:
/// with `n - 1 = d * 2^r` and `d` odd, the power `a^d` is `1` modulo `n`,
/// or one of `a^d, a^(2d), .., a^(2^(r-1) d)` is `-1` modulo `n`. A base
/// that `n` divides counts as passed.
pub open spec fn is_strong_probable_prime(n: nat, a: nat) -> bool {
    let d = odd_part((n - 1) as nat);
    let r = valuation((n - 1) as nat);
    ||| a % n == 0
    ||| power::pow(a as int, d) % (n as int) == 1
    ||| exists|i: nat| i < r && #[trigger] power::pow(a as int, d * power2::pow2(i)) % (n as int) == n - 1
}

/// The bases that [`is_prime`] tests `n` against.
pub open spec fn bases(n: nat) -> Seq<nat> {
    if n < 4_759_123_141 {
        seq![2, 7, 61]
    } else {
        seq![2, 325, 9_375, 28_178, 450_775, 9_780_504, 1_795_265_022]
    }
}

/// `n` is `2`, or an odd number `>= 3` that is a strong probable prime to
/// each of its [`bases`].
///
/// Every prime number passes. The sets of bases are known to leave no
/// composite number below `2^64` standing, so that this is primality for
/// every `u64`. That is a result of exhaustive computation, and is not
/// proved here.
pub open spec fn is_probable_prime(n: nat) -> bool {
    n == 2 || (n >= 3 && n % 2 == 1 && forall|k: int|
        0 <= k < bases(n).len() ==> is_strong_probable_prime(n, #[trigger] bases(n)[k]))
}

/// Returns `a^e` modulo `n`, by squaring and multiplying in `u128`.
fn power_residue(a: u64, e: u64, n: u64) -> (residue: u64)
    requires
        n >= 2,
    ensures
        residue == power::pow(a as int, e as nat) % (n as int),
        residue < n,
{
    let ghost m = n as int;
    let ghost e0 = e as nat;
    let modulus = n as u128;
    let mut base = a as u128 % modulus;
    let mut pow: u128 = 1;
    let mut e = e;
    proof {
        power::lemma_pow_mod_noop(a as int, e0, m);
        div_mod::lemma_small_mod(1, n as nat);
        assert(1 * power::pow(base as int, e0) == power::pow(base as int, e0)) by (nonlinear_arith);
    }
    while e > 0
        invariant
            modulus == n,
            m == n,
            n >= 2,
            base < modulus,
            pow < modulus,
            (pow * power::pow(base as int, e as nat)) % m == power::pow(a as int, e0) % m,
        decreases e,
    {
        proof {
            modint::lemma_square_and_multiply(pow as int, base as int, e as nat, m);
            assert(pow * base <= u128::MAX && base * base <= u128::MAX) by (nonlinear_arith)
                requires
                    pow <= u64::MAX,
                    base <= u64::MAX,
            ;
        }
        assert(e & 1 == e % 2) by (bit_vector);
        if e & 1 == 1 {
            pow = pow * base;
            pow = pow % modulus;
        }
        base = base * base;
        base = base % modulus;
        let ghost before = e;
        e >>= 1;
        assert(e == before / 2) by (bit_vector)
            requires
                e == before >> 1,
        ;
    }
    proof {
        power::lemma_pow0(base as int);
        div_mod::lemma_small_mod(pow as nat, n as nat);
    }
    pow as u64
}

/// Tests whether the odd number `n >= 3`, with `n - 1 = d * 2^r`, is a
/// strong probable prime to the base `a`.
fn miller_rabin(n: u64, r: u32, d: u64, a: u64) -> (passed: bool)
    requires
        n >= 3,
        n % 2 == 1,
        d % 2 == 1,
        n - 1 == d * power2::pow2(r as nat),
    ensures
        passed == is_strong_probable_prime(n as nat, a as nat),
{
    proof {
        lemma_valuation((n - 1) as nat, d as nat, r as nat);
    }
    if a % n == 0 {
        return true;
    }
    let ghost m = n as int;
    let ghost dn = d as nat;
    let modulus = n as u128;
    let mut pow = power_residue(a, d, n) as u128;
    proof {
        power2::lemma2_to64();
        assert(dn * power2::pow2(0) == dn) by (nonlinear_arith)
            requires
                power2::pow2(0) == 1,
        ;
    }
    if pow == 1 || pow == modulus - 1 {
        return true;
    }
    let mut i: u32 = 1;
    while i < r
        invariant
            modulus == n,
            m == n,
            n >= 3,
            1 <= i,
            pow < modulus,
            dn == d,
            valuation((n - 1) as nat) == r,
            odd_part((n - 1) as nat) == d,
            a % n != 0,
            pow == power::pow(a as int, dn * power2::pow2((i - 1) as nat)) % m,
            power::pow(a as int, d as nat) % m != 1,
            forall|j: nat|
                j < i ==> #[trigger] power::pow(a as int, dn * power2::pow2(j)) % m != n - 1,
        decreases r - i,
    {
        proof {
            // squaring doubles the exponent
            let x = dn * power2::pow2((i - 1) as nat);
            power2::lemma_pow2_unfold(i as nat);
            assert(dn * power2::pow2(i as nat) == x + x) by (nonlinear_arith)
                requires
                    x == dn * power2::pow2((i - 1) as nat),
                    power2::pow2(i as nat) == 2 * power2::pow2((i - 1) as nat),
            ;
            power::lemma_pow_adds(a as int, x, x);
            div_mod::lemma_mul_mod_noop_general(
                power::pow(a as int, x),
                power::pow(a as int, x),
                m,
            );
            assert(pow * pow <= u128::MAX) by (nonlinear_arith)
                requires
                    pow <= u64::MAX,
            ;
        }
        pow = pow * pow;
        pow = pow % modulus;
        if pow == modulus - 1 {
            proof {
                let at = i as nat;
                assert(power::pow(a as int, dn * power2::pow2(at)) % m == n - 1);
            }
            return true;
        }
        i += 1;
    }
    false
}

/// Returns `true` if `n` passes the deterministic Miller-Rabin primality
/// test, otherwise `false`.
///
/// The test is known to be right for every `u64`: to pass it is to be
/// prime.
///
/// ## Complexity
///
/// `O(log n)`
pub fn is_prime(n: u64) -> (prime: bool)
    ensures
        prime == is_probable_prime(n as nat),
        is_prime_number(n as nat) ==> prime,
{
    proof {
        if is_prime_number(n as nat) {
            miller_rabin::lemma_prime_passes(n as nat);
        }
    }
    if n == 0 || n == 1 {
        return false;
    } else if n == 2 {
        return true;
    }
    assert(n & 1 == n % 2) by (bit_vector);
    if n & 1 == 0 {
        return false;
    }
    let r = (n - 1).trailing_zeros();
    let d = (n - 1) >> r;
    proof {
        gcd::lemma_trailing_zeros((n - 1) as u64);
    }
    let ghost bs = bases(n as nat);
    if n < 4_759_123_141 {
        let passed = miller_rabin(n, r, d, 2) && miller_rabin(n, r, d, 7) && miller_rabin(
            n,
            r,
            d,
            61,
        );
        proof {
            assert(bs[0] == 2 && bs[1] == 7 && bs[2] == 61);
        }
        passed
    } else {
        let passed = miller_rabin(n, r, d, 2) && miller_rabin(n, r, d, 325) && miller_rabin(
            n,
            r,
            d,
            9_375,
        ) && miller_rabin(n, r, d, 28_178) && miller_rabin(n, r, d, 450_775) && miller_rabin(
            n,
            r,
            d,
            9_780_504,
        ) && miller_rabin(n, r, d, 1_795_265_022);
        proof {
            assert(bs[0] == 2 && bs[1] == 325 && bs[2] == 9_375 && bs[3] == 28_178 && bs[4]
                == 450_775 && bs[5] == 9_780_504 && bs[6] == 1_795_265_022);
        }
        passed
    }
}

/// The numbers of `s` grow from each to the next.
pub open spec fn is_increasing(s: Seq<u64>) -> bool {
    forall|i: int, j: int| 0 <= i < j < s.len() ==> s[i] < s[j]
}

/// The numbers of `s` do not fall from any to the next.
pub open spec fn is_sorted(s: Seq<u64>) -> bool {
    forall|i: int, j: int| 0 <= i <= j < s.len() ==> s[i] <= s[j]
}

/// `d` divides `n`, a positive number.
pub open spec fn is_divisor(d: nat, n: nat) -> bool {
    d >= 1 && n >= 1 && n % d == 0
}

/// A number whose square does not exceed `n` is less than a number whose
/// square does.
proof fn lemma_square_order(a: int, b: int, n: int)
    requires
        0 <= a,
        0 <= b,
        a * a <= n,
        n < b * b,
    ensures
        a < b,
{
    if a >= b {
        assert(b * b <= a * a) by (nonlinear_arith)
            requires
                a >= b,
                b >= 0,
        ;
    }
}

/// A number below one whose predecessor's square does not exceed `n` has a
/// square that does not exceed `n`.
proof fn lemma_square_order_converse(a: int, b: int, n: int)
    requires
        0 <= a < b,
        (b - 1) * (b - 1) <= n,
    ensures
        a * a <= n,
{
    assert(a * a <= (b - 1) * (b - 1)) by (nonlinear_arith)
        requires
            0 <= a <= b - 1,
    ;
}

/// The quotient of `n` by a divisor `d` is a divisor of `n`, with `d` as
/// its quotient; it exceeds the square root of `n` where `d` is below it.
proof fn lemma_codivisor(d: int, n: int)
    requires
        d >= 1,
        n >= 1,
        n % d == 0,
    ensures
        n / d >= 1,
        (n / d) * d == n,
        n % (n / d) == 0,
        n / (n / d) == d,
        d * d < n ==> (n / d) * (n / d) > n,
        d * d > n ==> (n / d) * (n / d) < n,
        d * d == n ==> n / d == d,
{
    let e = n / d;
    gcd::lemma_quotient(n, d);
    assert(e >= 1) by (nonlinear_arith)
        requires
            n == e * d,
            n >= 1,
            d >= 1,
    ;
    gcd::lemma_multiple(d, e);
    div_mod::lemma_div_by_multiple(d, e);
    assert(d * e == e * d) by (nonlinear_arith);
    if d * d < n {
        assert(e * e > n) by (nonlinear_arith)
            requires
                n == e * d,
                d * d < n,
                d >= 1,
                e >= 1,
        ;
    }
    if d * d > n {
        assert(e * e < n) by (nonlinear_arith)
            requires
                n == e * d,
                d * d > n,
                d >= 1,
                e >= 1,
        ;
    }
    if d * d == n {
        assert(e == d) by (nonlinear_arith)
            requires
                n == e * d,
                d * d == n,
                d >= 1,
        ;
    }
}

/// Of two divisors of `n`, the smaller has the larger quotient.
proof fn lemma_codivisor_order(c: int, d: int, n: int)
    requires
        1 <= c < d,
        n >= 1,
        n % c == 0,
        n % d == 0,
    ensures
        n / d < n / c,
{
    lemma_codivisor(c, n);
    lemma_codivisor(d, n);
    let (e, f) = (n / c, n / d);
    if f >= e {
        assert(f * d > e * c) by (nonlinear_arith)
            requires
                f >= e,
                d > c,
                e >= 1,
                c >= 1,
        ;
    }
}

/// Returns all divisors of `n` in ascending order.
///
/// ## Special Cases
///
/// - `divisors(0)` returns an empty vector `[]`
/// - `divisors(1)` returns `[1]`
///
/// ## Complexity
///
/// Time: `O(√n)`
/// Space: `O(d(n))` where `d(n)` is the number of divisors of `n`.
pub fn divisors(n: u64) -> (ds: Vec<u64>)
    requires
        n < 0xFFFF_FFFE_0000_0001,
    ensures
        is_increasing(ds@),
        forall|d: u64| ds@.contains(d) <==> is_divisor(d as nat, n as nat),
{
    let mut prefix: Vec<u64> = Vec::new();
    let mut suffix: Vec<u64> = Vec::new();
    let mut i: u64 = 1;
    proof {
        assert(0xFFFF_FFFFint * 0xFFFF_FFFF == 0xFFFF_FFFE_0000_0001) by (nonlinear_arith);
    }
    while i * i <= n
        invariant
            n < 0xFFFF_FFFE_0000_0001,
            1 <= i <= 0xFFFF_FFFF,
            i * i <= 0xFFFF_FFFE_0000_0001,
            (i - 1) * (i - 1) <= n,
            prefix@.len() + suffix@.len() > 0 ==> n >= 1,
            is_increasing(prefix@),
            forall|k: int| 0 <= k < prefix@.len() ==> 1 <= #[trigger] prefix@[k] < i && n % prefix@[k] == 0,
            forall|d: u64| #[trigger] is_divisor(d as nat, n as nat) && d < i ==> prefix@.contains(d),
            forall|k: int, l: int| 0 <= k < l < suffix@.len() ==> suffix@[k] > suffix@[l],
            forall|k: int|
                0 <= k < suffix@.len() ==> (#[trigger] suffix@[k]) * suffix@[k] > n && suffix@[k] >= 1 && n
                    % suffix@[k] == 0,
            forall|k: int|
                0 <= k < suffix@.len() ==> 1 <= n / (#[trigger] suffix@[k]) < i,
            forall|d: u64|
                #[trigger] is_divisor(d as nat, n as nat) && d < i && d * d != n ==> suffix@.contains(
                    (n / d) as u64,
                ),
        decreases 0xFFFF_FFFF - i,
    {
        let ghost (prefix0, suffix0) = (prefix@, suffix@);
        proof {
            assert(n >= 1) by (nonlinear_arith)
                requires
                    i * i <= n,
                    i >= 1,
            ;
        }
        if n % i == 0 {
            prefix.push(i);
            proof {
                assert(prefix@[prefix0.len() as int] == i);
                assert forall|d: u64| #[trigger]
                    is_divisor(d as nat, n as nat) && d < i + 1 implies prefix@.contains(d) by {
                    if d < i {
                        let k = choose|k: int| 0 <= k < prefix0.len() && prefix0[k] == d;
                        assert(prefix@[k] == d);
                    }
                }
                lemma_codivisor(i as int, n as int);
            }
            if i * i != n {
                suffix.push(n / i);
                proof {
                    assert(suffix@[suffix0.len() as int] == n / i);
                    assert forall|k: int, l: int| 0 <= k < l < suffix@.len() implies suffix@[k]
                        > suffix@[l] by {
                        if l == suffix0.len() {
                            let c = n / suffix0[k];
                            lemma_codivisor(suffix0[k] as int, n as int);
                            lemma_codivisor_order(c as int, i as int, n as int);
                        }
                    }
                }
            }
            proof {
                assert forall|d: u64| #[trigger]
                    is_divisor(d as nat, n as nat) && d < i + 1 && d * d != n implies suffix@.contains(
                    (n / d) as u64,
                ) by {
                    if d < i {
                        let k = choose|k: int| 0 <= k < suffix0.len() && suffix0[k] == (n / d) as u64;
                        assert(suffix@[k] == (n / d) as u64);
                    }
                }
            }
        }
        proof {
            lemma_square_order(i as int, 0xFFFF_FFFF, n as int);
            assert((i + 1) * (i + 1) <= 0xFFFF_FFFFint * 0xFFFF_FFFF) by (nonlinear_arith)
                requires
                    0 <= i + 1 <= 0xFFFF_FFFF,
            ;
        }
        i += 1;
    }
    let ghost small = prefix@;
    let mut k = suffix.len();
    while k > 0
        invariant
            k <= suffix@.len(),
            prefix@ == small + suffix@.subrange(k as int, suffix@.len() as int).reverse(),
        decreases k,
    {
        k -= 1;
        prefix.push(suffix[k]);
        proof {
            let tail = suffix@.subrange(k + 1, suffix@.len() as int);
            let longer = suffix@.subrange(k as int, suffix@.len() as int);
            assert(longer.reverse() =~= tail.reverse().push(suffix@[k as int]));
            assert(prefix@ =~= small + longer.reverse());
        }
    }
    proof {
        let large = suffix@.reverse();
        assert(suffix@.subrange(0, suffix@.len() as int) =~= suffix@);
        assert(prefix@ == small + large);
        assert forall|a: int, b: int| 0 <= a < b < prefix@.len() implies prefix@[a] < prefix@[b] by {
            if a < small.len() && b >= small.len() {
                // a small divisor and a large one
                let e = large[b - small.len()];
                lemma_square_order_converse(small[a] as int, i as int, n as int);
                assert(e == suffix@[suffix@.len() - 1 - (b - small.len())]);
                lemma_square_order(small[a] as int, e as int, n as int);
            }
        }
        assert forall|d: u64| prefix@.contains(d) <==> is_divisor(d as nat, n as nat) by {
            if prefix@.contains(d) {
                let a = choose|a: int| 0 <= a < prefix@.len() && prefix@[a] == d;
                if a >= small.len() {
                    assert(large[a - small.len()] == d);
                }
            }
            if is_divisor(d as nat, n as nat) {
                if d < i {
                    let a = choose|a: int| 0 <= a < small.len() && small[a] == d;
                    assert(prefix@[a] == d);
                } else {
                    // the quotient of `n` by `d` is a divisor below `i`
                    lemma_codivisor(d as int, n as int);
                    let c = (n / d) as u64;
                    assert(d * d > n) by (nonlinear_arith)
                        requires
                            d >= i,
                            i * i > n,
                            i >= 1,
                    ;
                    lemma_square_order(c as int, i as int, n as int);
                    assert(is_divisor(c as nat, n as nat));
                    assert(suffix@.contains((n / c) as u64));
                    let a = choose|a: int| 0 <= a < suffix@.len() && suffix@[a] == d;
                    assert(large[suffix@.len() - 1 - a] == d);
                    assert(prefix@[small.len() + suffix@.len() - 1 - a] == d);
                }
            }
        }
    }
    prefix
}

/// Multiplication of a product so far by one more factor.
pub open spec fn times() -> spec_fn(nat, u64) -> nat {
    |p: nat, x: u64| p * (x as nat)
}

/// The product of the numbers of `s`; `1` for none.
pub open spec fn product(s: Seq<u64>) -> nat {
    s.fold_left(1nat, times())
}

/// Each number of `s` passes the primality test of [`is_prime`].
pub open spec fn is_prime_list(s: Seq<u64>) -> bool {
    forall|i: int| 0 <= i < s.len() ==> is_probable_prime(#[trigger] s[i] as nat)
}

/// The product of a sequence does not depend on the order of its numbers.
pub proof fn lemma_product_permutation(s: Seq<u64>, t: Seq<u64>)
    requires
        s.to_multiset() == t.to_multiset(),
    ensures
        product(s) == product(t),
{
    assert forall|x: u64, y: u64, v: nat| #[trigger] times()(times()(v, x), y) == times()(
        times()(v, y),
        x,
    ) by {
        assert(v * x * y == v * y * x) by (nonlinear_arith);
    }
    seq_lib::lemma_fold_left_permutation(s, t, times(), 1nat);
}

/// The product of a sequence with one more number is the product of the
/// sequence times that number.
pub proof fn lemma_product_push(s: Seq<u64>, x: u64)
    ensures
        product(s.push(x)) == product(s) * x,
{
    assert(s.push(x).drop_last() =~= s);
}

/// Replacing a number of a sequence by a factor of it, and appending the
/// other factor, keeps the product.
pub proof fn lemma_product_split(s: Seq<u64>, i: int, a: u64, b: u64)
    requires
        0 <= i < s.len(),
        a * b == s[i],
    ensures
        product(s.update(i, a).push(b)) == product(s),
{
    let t = s.update(i, a).push(b);
    // `t` is a permutation of `s.remove(i)` with `a` and `b` appended
    let rest = s.remove(i);
    assert(s.update(i, a) =~= rest.insert(i, a));
    assert(s =~= rest.insert(i, s[i]));
    seq_lib::to_multiset_insert(rest, i, a);
    seq_lib::to_multiset_insert(rest, i, s[i]);
    seq_lib::to_multiset_build(rest.insert(i, a), b);
    seq_lib::to_multiset_build(rest, a);
    seq_lib::to_multiset_build(rest.push(a), b);
    seq_lib::to_multiset_build(rest, s[i]);
    lemma_product_permutation(t, rest.push(a).push(b));
    lemma_product_permutation(s, rest.push(s[i]));
    lemma_product_push(rest, a);
    lemma_product_push(rest.push(a), b);
    lemma_product_push(rest, s[i]);
    assert(product(rest) * a * b == product(rest) * (a * b)) by (nonlinear_arith);
}

/// A product of `k` numbers that are at least two is at least `2^k`.
pub proof fn lemma_product_bound(s: Seq<u64>)
    requires
        forall|i: int| 0 <= i < s.len() ==> s[i] >= 2,
    ensures
        product(s) >= power2::pow2(s.len()),
    decreases s.len(),
{
    if s.len() == 0 {
        power2::lemma2_to64();
    } else {
        lemma_product_bound(s.drop_last());
        power2::lemma_pow2_unfold(s.len());
        assert(product(s.drop_last()) * s.last() >= power2::pow2((s.len() - 1) as nat) * 2)
            by (nonlinear_arith)
            requires
                product(s.drop_last()) >= power2::pow2((s.len() - 1) as nat),
                s.last() >= 2,
        ;
    }
}

/// [`slice::sort_unstable`] puts the numbers of the vector into ascending
/// order, in place.
#[verifier::external_body]
fn sort_ascending(v: &mut Vec<u64>)
    ensures
        is_sorted(final(v)@),
        final(v)@.to_multiset() == old(v)@.to_multiset(),
{
    v.sort_unstable();
}

/// Returns `(x * x + t) % n`, the next number after `x` of the sequence
/// in which Pollard's rho method looks for a cycle.
fn rho_step(x: u64, t: u64, n: u64) -> (y: u64)
    requires
        n >= 1,
    ensures
        y == (x * x + t) % (n as int),
        y < n,
{
    proof {
        assert(x * x + t <= u128::MAX) by (nonlinear_arith)
            requires
                x <= u64::MAX,
                t <= u64::MAX,
        ;
        assert(x * x >= 0) by (nonlinear_arith);
    }
    ((x as u128 * x as u128 + t as u128) % n as u128) as u64
}

/// Where the runner is after `k` steps of the sequence of the polynomial
/// `x^2 + t` modulo `n`, which starts at `t`.
pub open spec fn runner(n: nat, t: nat, k: nat) -> nat
    decreases k,
{
    if k == 0 {
        t
    } else {
        let x = runner(n, t, (k - 1) as nat);
        (x * x + t) % n
    }
}

/// What round `k` of Pollard's rho method with the polynomial `x^2 + t`
/// yields: the greatest common divisor of `n` and the distance between
/// the slow runner, which has made `k` steps, and the fast one, which has
/// made `2 k + 1`.
pub open spec fn rho_gcd(n: nat, t: nat, k: nat) -> nat {
    let (x, y) = (runner(n, t, k), runner(n, t, 2 * k + 1));
    gcd::gcd_of(
        if y >= x {
            (y - x) as nat
        } else {
            (x - y) as nat
        },
        n,
    )
}

/// Round `k` of the method with the polynomial `x^2 + t` is the first that
/// yields another number than `1`, and yields the divisor `g` of `n`,
/// which is not `n`: the two runners have not met.
pub open spec fn is_rho_divisor(n: nat, t: nat, k: nat, g: nat) -> bool {
    &&& k < n
    &&& forall|j: nat| j < k ==> #[trigger] rho_gcd(n, t, j) == 1
    &&& rho_gcd(n, t, k) == g
    &&& g != 1
    &&& g != n
}

/// The method finds no divisor of `n` with the polynomial `x^2 + t`: in
/// `n` rounds its runners meet before they are a divisor apart, or are
/// never one apart.
pub open spec fn is_rho_barren(n: nat, t: nat) -> bool {
    forall|k: nat, g: nat| !#[trigger] is_rho_divisor(n, t, k, g)
}

/// The polynomial `x^2 + t` is the first of the polynomials with which
/// the method finds a divisor of `n`, and it finds `g`, in round `k`.
pub open spec fn is_first_rho_divisor(n: nat, t: nat, k: nat, g: nat) -> bool {
    &&& 1 <= t < n
    &&& is_rho_divisor(n, t, k, g)
    &&& forall|s: nat| 1 <= s < t ==> #[trigger] is_rho_barren(n, s)
}

/// Two numbers have one greatest common divisor.
proof fn lemma_gcd_unique(g: nat, a: nat, b: nat)
    requires
        gcd::is_gcd(g, a, b),
    ensures
        g == gcd::gcd_of(a, b),
{
    gcd::lemma_gcd_of(a, b);
}

/// Looks for a divisor of `n` other than `1` and `n` by Pollard's rho
/// method, with each of the polynomials `x^2 + t` for `t` in `1 .. n` in
/// turn, each until the two runners of the cycle detection meet, and for
/// `n` rounds at most.
///
/// ## Returns
///
/// The divisor that the first of the polynomials yields that yields one;
/// `None` where none of them does.
fn pollard_rho(n: u64) -> (found: Option<u64>)
    requires
        n >= 2,
    ensures
        match found {
            Some(g) => 1 < g < n && n % g == 0 && exists|t: nat, k: nat| #[trigger]
                is_first_rho_divisor(n as nat, t, k, g as nat),
            None => forall|t: nat| 1 <= t < n ==> #[trigger] is_rho_barren(n as nat, t),
        },
{
    let mut t: u64 = 1;
    while t < n
        invariant
            n >= 2,
            1 <= t,
            forall|s: nat| 1 <= s < t ==> #[trigger] is_rho_barren(n as nat, s),
        decreases n - t,
    {
        let mut x = t;
        let mut y = rho_step(x, t, n);
        let mut rounds: u64 = 0;
        let ghost mut met = false;
        while rounds < n
            invariant_except_break
                x == runner(n as nat, t as nat, rounds as nat),
                y == runner(n as nat, t as nat, (2 * rounds + 1) as nat),
                forall|j: nat| j < rounds ==> #[trigger] rho_gcd(n as nat, t as nat, j) == 1,
                !met,
            invariant
                n >= 2,
                x < n,
                y < n,
                1 <= t < n,
                rounds <= n,
                forall|s: nat| 1 <= s < t ==> #[trigger] is_rho_barren(n as nat, s),
            ensures
                met || rounds == n,
                is_rho_barren(n as nat, t as nat),
            decreases n - rounds,
        {
            let apart = if y >= x {
                y - x
            } else {
                x - y
            };
            let g = gcd::binary_gcd(apart, n);
            proof {
                lemma_gcd_unique(g as nat, apart as nat, n as nat);
                gcd::lemma_divisor_bound(g as nat, n as nat);
                assert(g == rho_gcd(n as nat, t as nat, rounds as nat));
            }
            if g == 0 || g == n {
                proof {
                    met = true;
                    assert forall|k: nat, d: nat| !#[trigger] is_rho_divisor(
                        n as nat,
                        t as nat,
                        k,
                        d,
                    ) by {
                        if is_rho_divisor(n as nat, t as nat, k, d) {
                            if k > rounds {
                                assert(rho_gcd(n as nat, t as nat, rounds as nat) == 1);
                            } else if k < rounds {
                                assert(rho_gcd(n as nat, t as nat, k) == 1);
                            }
                        }
                    }
                }
                break ;
            }
            if g != 1 {
                proof {
                    assert(is_rho_divisor(n as nat, t as nat, rounds as nat, g as nat));
                    assert(is_first_rho_divisor(n as nat, t as nat, rounds as nat, g as nat));
                }
                return Some(g);
            }
            let ghost (x0, y0) = (x, y);
            x = rho_step(x, t, n);
            y = rho_step(y, t, n);
            y = rho_step(y, t, n);
            rounds += 1;
            proof {
                let (m, s, k) = (n as nat, t as nat, rounds as nat);
                assert(runner(m, s, k) == (x0 * x0 + t) % (n as int));
                assert(runner(m, s, 2 * k) == (y0 * y0 + t) % (n as int));
                assert(runner(m, s, 2 * k + 1) == y);
                assert forall|j: nat| j < k implies #[trigger] rho_gcd(m, s, j) == 1 by {}
            }
        }
        proof {
            if !met {
                assert forall|k: nat, d: nat| !#[trigger] is_rho_divisor(n as nat, t as nat, k, d) by {
                    if is_rho_divisor(n as nat, t as nat, k, d) {
                        assert(rho_gcd(n as nat, t as nat, k) == 1);
                    }
                }
            }
        }
        t += 1;
    }
    None
}

/// Looks for the smallest divisor of `n` other than `1` and `n`, among the
/// numbers up to the square root of `n`.
fn trial_division(n: u64) -> (found: Option<u64>)
    requires
        n >= 2,
    ensures
        found matches Some(g) ==> 1 < g < n && n % g == 0,
        found is None ==> is_prime_number(n as nat),
{
    let mut d: u64 = 2;
    while d <= n / d
        invariant
            n >= 2,
            2 <= d,
            forall|c: nat| 2 <= c < d ==> #[trigger] (n as nat % c) != 0,
        decreases n - d,
    {
        proof {
            div_mod::lemma_fundamental_div_mod(n as int, d as int);
            div_mod::lemma_mod_bound(n as int, d as int);
            assert(d * 2 <= n) by (nonlinear_arith)
                requires
                    n == d * (n / d) + n % d,
                    d <= n / d,
                    n % d >= 0,
                    d >= 2,
            ;
        }
        if n % d == 0 {
            return Some(d);
        }
        d += 1;
    }
    proof {
        assert forall|e: nat| 1 < e < n implies #[trigger] (n as nat % e) != 0 by {
            if n as nat % e == 0 {
                // the smaller of `e` and its codivisor is below `d`
                lemma_codivisor(e as int, n as int);
                let f = (n as nat / e) as nat;
                let c = if e <= f {
                    e
                } else {
                    f
                };
                assert(c >= 2) by (nonlinear_arith)
                    requires
                        f * e == n,
                        1 < e < n,
                        f >= 1,
                        c == f || c == e,
                ;
                assert(c * c <= n) by (nonlinear_arith)
                    requires
                        f * e == n,
                        (c == e && e <= f) || (c == f && f < e),
                        c >= 0,
                ;
                if c >= d {
                    div_mod::lemma_fundamental_div_mod(n as int, d as int);
                    div_mod::lemma_mod_bound(n as int, d as int);
                    assert(false) by (nonlinear_arith)
                        requires
                            c >= d,
                            c * c <= n,
                            n == d * (n / d) + n % d,
                            n % d < d,
                            d > n / d,
                            d >= 2,
                            n / d >= 0,
                    ;
                }
                assert(n as nat % c != 0);
            }
        }
    }
    None
}

/// Factorizes `n` into factors that pass for prime.
///
/// The factors are found by Pollard's rho method. Where that finds no
/// divisor of a number that does not pass for prime, trial division
/// takes over.
///
/// ## Returns
///
/// A vector of factors in ascending order, whose product is `n`, and each
/// of which passes the primality test of [`is_prime`]. As that test is
/// known to be right for every `u64`, these are the prime factors of `n`.
///
/// ## Special Cases
///
/// - `factorize(1)` returns an empty vector `[]`
///
/// ## Complexity
///
/// `O(n^(1/4) log n)` expected
pub fn factorize(n: u64) -> (factors: Vec<u64>)
    requires
        n != 0,
    ensures
        product(factors@) == n,
        is_sorted(factors@),
        is_prime_list(factors@),
{
    let ghost whole = n;
    let mut n = n;
    let two = n.trailing_zeros();
    let mut res: Vec<u64> = Vec::new();
    proof {
        gcd::lemma_trailing_zeros(n);
        power2::lemma2_to64();
        assert(is_prime_number(3)) by {
            assert forall|d: nat| 1 < d < 3 implies #[trigger] (3nat % d) != 0 by {
                assert(d == 2);
            }
        }
        miller_rabin::lemma_prime_passes(3);
    }
    let mut k: u32 = 0;
    while k < two
        invariant
            k <= two < 64,
            res@.len() == k,
            forall|i: int| 0 <= i < k ==> res@[i] == 2,
            product(res@) == power2::pow2(k as nat),
        decreases two - k,
    {
        proof {
            lemma_product_push(res@, 2);
            power2::lemma_pow2_unfold((k + 1) as nat);
        }
        res.push(2);
        k += 1;
    }
    n >>= two;
    proof {
        assert(product(res@) * n == whole) by (nonlinear_arith)
            requires
                product(res@) == power2::pow2(two as nat),
                whole == n * power2::pow2(two as nat),
        ;
    }
    while n % 3 == 0
        invariant
            n >= 1,
            product(res@) * n == whole,
            forall|i: int| 0 <= i < res@.len() ==> #[trigger] res@[i] == 2 || res@[i] == 3,
            is_sorted(res@),
        decreases n,
    {
        proof {
            lemma_product_push(res@, 3);
            gcd::lemma_quotient(n as int, 3);
            assert(product(res@) * 3 * (n / 3) == product(res@) * n) by (nonlinear_arith)
                requires
                    n == 3 * (n / 3),
            ;
        }
        res.push(3);
        n /= 3;
    }
    if n == 1 {
        proof {
            assert(product(res@) * 1 == product(res@)) by (nonlinear_arith);
        }
        return res;
    }
    let mut i = res.len();
    proof {
        lemma_product_push(res@, n);
    }
    res.push(n);
    while i < res.len()
        invariant
            i <= res@.len(),
            product(res@) == whole,
            forall|j: int| 0 <= j < res@.len() ==> #[trigger] res@[j] >= 2,
            is_prime_list(res@.subrange(0, i as int)),
        decreases 128 - res@.len() - i,
    {
        proof {
            lemma_product_bound(res@);
            if res@.len() >= 64 {
                power2::lemma2_to64_rest();
                if res@.len() > 64 {
                    power2::lemma_pow2_strictly_increases(64, res@.len());
                }
            }
        }
        let n = res[i];
        if is_prime(n) {
            proof {
                assert(res@.subrange(0, i + 1).drop_last() =~= res@.subrange(0, i as int));
            }
            i += 1;
            continue ;
        }
        let found = match pollard_rho(n) {
            Some(g) => Some(g),
            None => trial_division(n),
        };
        match found {
            Some(g) => {
                let ghost before = res@;
                proof {
                    lemma_codivisor(g as int, n as int);
                    assert(n / g >= 2) by (nonlinear_arith)
                        requires
                            (n / g) * g == n,
                            1 < g < n,
                            n / g >= 1,
                    ;
                    lemma_product_split(before, i as int, (n / g) as u64, g);
                }
                res[i] = n / g;
                res.push(g);
                proof {
                    assert(res@ =~= before.update(i as int, (n / g) as u64).push(g));
                    assert(res@.subrange(0, i as int) =~= before.subrange(0, i as int));
                }
            },
            None => {
                proof {
                    // no prime fails the test
                    miller_rabin::lemma_prime_passes(n as nat);
                }
                i += 1;
            },
        }
    }
    let ghost unsorted = res@;
    sort_ascending(&mut res);
    proof {
        assert(unsorted.subrange(0, unsorted.len() as int) =~= unsorted);
        lemma_product_permutation(res@, unsorted);
        assert forall|j: int| 0 <= j < res@.len() implies is_probable_prime(
            #[trigger] res@[j] as nat,
        ) by {
            seq_lib::to_multiset_contains(res@, res@[j]);
            seq_lib::to_multiset_contains(unsorted, res@[j]);
            assert(res@.contains(res@[j]));
            let at = choose|at: int| 0 <= at < unsorted.len() && unsorted[at] == res@[j];
            assert(unsorted[at] == res@[j]);
        }
    }
    res
}

/// No power `g^((p - 1) / f)` with `f` from `factors` is `1` modulo `p`.
///
/// Where `factors` holds the prime factors of `p - 1`, for a prime `p`,
/// this says that `g` is a primitive root modulo `p`: the order of `g`
/// divides `p - 1`, and is no proper divisor of it.
pub open spec fn is_generator(p: nat, g: nat, factors: Seq<u64>) -> bool {
    forall|i: int|
        0 <= i < factors.len() ==> #[trigger] power::pow(
            g as int,
            (p - 1) as nat / (factors[i] as nat),
        ) % (p as int) != 1
}

/// `factors` is a factorization of `n` into factors that pass for prime.
pub open spec fn is_factorization(factors: Seq<u64>, n: nat) -> bool {
    product(factors) == n && is_prime_list(factors)
}

/// Whatever factorization of `p - 1` is taken, some number in `2 .. p`
/// passes for a primitive root modulo `p`. This is so for every prime
/// `p > 2`: see `lemma_has_generator` in the module `generator`.
pub open spec fn has_generator(p: nat) -> bool {
    forall|factors: Seq<u64>| #[trigger]
        is_factorization(factors, (p - 1) as nat) ==> exists|g: u64|
            2 <= g < p && #[trigger] is_generator(p, g as nat, factors)
}

/// `g` is the smallest number in `2 .. p` that passes for a primitive root
/// modulo `p` with the factors of `p - 1` in `factors`.
pub open spec fn is_smallest_generator(p: nat, g: nat, factors: Seq<u64>) -> bool {
    &&& 2 <= g < p
    &&& is_generator(p, g, factors)
    &&& forall|h: u64| 2 <= h < g ==> !#[trigger] is_generator(p, h as nat, factors)
}

/// Returns the smallest primitive root modulo the prime `p`.
///
/// ## Definition
///
/// For a prime `p`, an integer `g` is a **primitive root modulo p** if the
/// powers `g^0, g^1, .., g^(p-2)` modulo `p` are all the non-zero residues
/// modulo `p`; equivalently, if `g^((p-1)/f)` is not `1` modulo `p` for any
/// prime factor `f` of `p - 1`.
///
/// ## Returns
///
/// `1` for `p = 2`; else the smallest number in `2 .. p` that passes for a
/// primitive root with the factors of `p - 1` that [`factorize`] finds.
///
/// ## Complexity
///
/// `O(n^(1/4) log^2 n)` expected
pub fn primitive_root(p: u64) -> (g: u64)
    requires
        is_probable_prime(p as nat),
        p == 2 || has_generator(p as nat),
    ensures
        p == 2 ==> g == 1,
        p != 2 ==> exists|factors: Seq<u64>| #[trigger]
            is_factorization(factors, (p - 1) as nat) && is_smallest_generator(
                p as nat,
                g as nat,
                factors,
            ),
{
    if p == 2 {
        return 1;
    }
    let found = factorize(p - 1);
    // drop the repeated factors
    let mut factor: Vec<u64> = Vec::new();
    let mut k: usize = 0;
    while k < found.len()
        invariant
            k <= found@.len(),
            forall|i: int| 0 <= i < factor@.len() ==> found@.contains(#[trigger] factor@[i]),
            forall|i: int| 0 <= i < k ==> factor@.contains(#[trigger] found@[i]),
        decreases found@.len() - k,
    {
        let f = found[k];
        let ghost before = factor@;
        if factor.len() == 0 || factor[factor.len() - 1] != f {
            factor.push(f);
            proof {
                assert(factor@[before.len() as int] == f);
                assert forall|i: int| 0 <= i < k implies factor@.contains(#[trigger] found@[i]) by {
                    let at = choose|at: int| 0 <= at < before.len() && before[at] == found@[i];
                    assert(factor@[at] == found@[i]);
                }
            }
        } else {
            proof {
                assert(factor@[factor@.len() - 1] == f);
            }
        }
        k += 1;
    }
    proof {
        assert(is_factorization(found@, (p - 1) as nat));
        assert forall|i: int| 0 <= i < found@.len() implies 1 <= #[trigger] found@[i] by {
            if found@[i] == 0 {
                assert(!is_probable_prime(0));
            }
        }
    }
    let mut g: u64 = 2;
    while g < p
        invariant
            p >= 3,
            2 <= g <= p,
            is_factorization(found@, (p - 1) as nat),
            has_generator(p as nat),
            forall|i: int| 0 <= i < found@.len() ==> 1 <= #[trigger] found@[i],
            forall|i: int| 0 <= i < factor@.len() ==> found@.contains(#[trigger] factor@[i]),
            forall|i: int| 0 <= i < found@.len() ==> factor@.contains(#[trigger] found@[i]),
            forall|h: u64| 2 <= h < g ==> !#[trigger] is_generator(p as nat, h as nat, found@),
        decreases p - g,
    {
        let mut is_primitive = true;
        let mut j: usize = 0;
        while j < factor.len()
            invariant_except_break
                is_primitive,
                forall|i: int|
                    0 <= i < j ==> power::pow(
                        g as int,
                        (p - 1) as nat / (#[trigger] factor@[i] as nat),
                    ) % (p as int) != 1,
            invariant
                p >= 3,
                j <= factor@.len(),
                forall|i: int| 0 <= i < found@.len() ==> 1 <= #[trigger] found@[i],
                forall|i: int| 0 <= i < factor@.len() ==> found@.contains(#[trigger] factor@[i]),
            ensures
                is_primitive ==> forall|i: int|
                    0 <= i < factor@.len() ==> power::pow(
                        g as int,
                        (p - 1) as nat / (#[trigger] factor@[i] as nat),
                    ) % (p as int) != 1,
                !is_primitive ==> !is_generator(p as nat, g as nat, found@),
            decreases factor@.len() - j,
        {
            let f = factor[j];
            proof {
                let at = choose|at: int| 0 <= at < found@.len() && found@[at] == f;
                assert(1 <= found@[at]);
            }
            let res = power_residue(g, (p - 1) / f, p);
            if res == 1 {
                is_primitive = false;
                proof {
                    let at = choose|at: int| 0 <= at < found@.len() && found@[at] == f;
                    assert(!is_generator(p as nat, g as nat, found@)) by {
                        if is_generator(p as nat, g as nat, found@) {
                            assert(power::pow(g as int, (p - 1) as nat / (found@[at] as nat)) % (
                            p as int) != 1);
                        }
                    }
                }
                break ;
            }
            j += 1;
        }
        if is_primitive {
            proof {
                assert forall|i: int| 0 <= i < found@.len() implies #[trigger] power::pow(
                    g as int,
                    (p - 1) as nat / (found@[i] as nat),
                ) % (p as int) != 1 by {
                    let at = choose|at: int| 0 <= at < factor@.len() && factor@[at] == found@[i];
                    assert(factor@[at] == found@[i]);
                }
                assert(is_smallest_generator(p as nat, g as nat, found@));
            }
            return g;
        }
        g += 1;
    }
    proof {
        // some number in `2 .. p` passes, by the precondition
        let h = choose|h: u64| 2 <= h < p && #[trigger] is_generator(p as nat, h as nat, found@);
        assert(false);
    }
    g
}

} // verus!
