//! Number Theoretic Transform (NTT)
//!
//! Functions for the NTT and for convolution through it.

use vstd::arithmetic::div_mod;
use vstd::arithmetic::power;
use vstd::arithmetic::power2;
use vstd::bits;
use vstd::prelude::*;
use vstd::std_specs::bits as std_bits;

use crate::ds::layout;
use crate::math::conv::transform;
use crate::math::conv::unity;
use crate::math::fermat;
use crate::math::gcd;
use crate::math::generator;
use crate::math::gf::GF;
use crate::math::miller_rabin;
use crate::math::modint::pow_mod;
use crate::math::prime;
use crate::math::prime::primitive_root;

verus! {

/// Maximum number of levels supported for the NTT.
pub const MAX_NTT_LEVELS: usize = 32;

/// The roots of the NTT for a modulus: the forward roots, one for each
/// level, and the inverse roots.
pub struct NttRoots {
    /// `forward[i]` is the root for the NTT at level `i`.
    pub forward: [u32; 32],
    /// `inverse[i]` is the root for the inverse NTT at level `i`.
    pub inverse: [u32; 32],
}

/// `modulo` is a modulus that the roots of the NTT can be computed for: an
/// odd number in `3 ..= 2^31` that passes for prime, that has a primitive
/// root, and with fewer than [`MAX_NTT_LEVELS`] factors two in
/// `modulo - 1`.
pub open spec fn is_ntt_modulus(modulo: u32) -> bool {
    &&& 3 <= modulo <= 0x8000_0000
    &&& prime::is_probable_prime(modulo as nat)
    &&& prime::has_generator(modulo as nat)
    &&& prime::valuation((modulo - 1) as nat) < MAX_NTT_LEVELS
}

/// Every prime in `3 ..= 2^31` is a modulus that the roots of the NTT can
/// be computed for.
pub proof fn lemma_ntt_modulus(modulo: u32)
    requires
        prime::is_prime_number(modulo as nat),
        3 <= modulo <= 0x8000_0000,
    ensures
        is_ntt_modulus(modulo),
{
    let m = (modulo - 1) as nat;
    let v = prime::valuation(m);
    miller_rabin::lemma_prime_passes(modulo as nat);
    generator::lemma_has_generator(modulo as nat);
    prime::lemma_decomposition(m);
    power2::lemma2_to64();
    if v >= 32 {
        if v > 32 {
            power2::lemma_pow2_strictly_increases(32, v);
        }
        assert(prime::odd_part(m) * power2::pow2(v) >= power2::pow2(v)) by (nonlinear_arith)
            requires
                prime::odd_part(m) >= 1,
        ;
    }
}

/// The roots are good roots for the transforms of as many levels as
/// `modulo - 1` has factors two, and the inverse roots are the inverses of
/// the forward roots.
pub open spec fn is_root_pair(roots: NttRoots, modulo: u32) -> bool {
    let m = prime::valuation((modulo - 1) as nat);
    &&& transform::is_good(root_values(roots.forward), modulo as int, m)
    &&& transform::is_inverse(
        root_values(roots.forward),
        root_values(roots.inverse),
        modulo as int,
        m,
    )
}

/// Returns the roots of the NTT for the given modulus.
///
/// The roots are computed anew on every call. A caller that transforms
/// often with one modulus keeps them and hands them to [`ntt_with`] and
/// [`intt_with`].
pub fn get_ntt_roots(modulo: u32) -> (roots: NttRoots)
    requires
        is_ntt_modulus(modulo),
    ensures
        forall|i: int| 0 <= i < 32 ==> roots.forward[i] < modulo && roots.inverse[i] < modulo,
        prime::is_prime_number(modulo as nat) ==> is_root_pair(roots, modulo),
{
    compute_ntt_roots(modulo)
}

/// A number whose remainder modulo `p` is `p - 1` is one less than a
/// multiple of `p`.
proof fn lemma_minus_one(x: int, p: int)
    requires
        p >= 2,
        x % p == p - 1,
    ensures
        (x + 1) % p == 0,
{
    div_mod::lemma_small_mod(1, p as nat);
    div_mod::lemma_small_mod((p - 1) as nat, p as nat);
    transform::lemma_congruent_sum(x, p - 1, 1, 1, p);
    div_mod::lemma_mod_self_0(p);
}

/// Computes the roots of the NTT for the given modulus.
///
/// ## Requirements
///
/// - `modulo` must be a prime of the form `c * 2^k + 1`, with
///   `1 <= k < MAX_NTT_LEVELS`.
///
/// ## Returns
///
/// With `g` the smallest primitive root and `omega = g^c`, the roots
/// - `forward[i]`: `omega^(2^(k-2-i)) * zeta_i mod modulo`
/// - `inverse[i]`: `omega^(-2^(k-2-i)) * zeta_i^(-1) mod modulo`
///
/// for `i < k - 1`, where `zeta_i` is the product of the `inverse` powers
/// of `omega` of the levels below `i`: the adjustment for the bit-reversed
/// order in which the transform visits its blocks. The other entries are
/// `0`.
fn compute_ntt_roots(modulo: u32) -> (roots: NttRoots)
    requires
        is_ntt_modulus(modulo),
    ensures
        forall|i: int| 0 <= i < 32 ==> roots.forward[i] < modulo && roots.inverse[i] < modulo,
        prime::is_prime_number(modulo as nat) ==> is_root_pair(roots, modulo),
{
    let k = (modulo - 1).trailing_zeros() as usize;
    let ghost p = modulo as int;
    let ghost pr = prime::is_prime_number(modulo as nat);
    proof {
        let m = (modulo - 1) as u32;
        std_bits::axiom_u32_trailing_zeros(m);
        // the trailing zeros of `modulo - 1` are the factors two in it
        let t = m.trailing_zeros();
        let q = m >> t;
        assert(q & 1 == q % 2) by (bit_vector);
        assert((q << t) == m) by (bit_vector)
            requires
                t < 32,
                q == m >> t,
                m << ((32 - t) as u32) == 0,
        ;
        bits::lemma_u32_shr_is_div(m, t);
        power2::lemma_pow2_pos(t as nat);
        div_mod::lemma_fundamental_div_mod(m as int, power2::pow2(t as nat) as int);
        div_mod::lemma_mod_bound(m as int, power2::pow2(t as nat) as int);
        assert(q * power2::pow2(t as nat) == power2::pow2(t as nat) * q) by (nonlinear_arith);
        bits::lemma_u32_shl_is_mul(q, t);
        prime::lemma_valuation(m as nat, q as nat, t as nat);
        assert(m & 1 == m % 2) by (bit_vector);
    }
    let m = modulo as u64;
    let g = primitive_root(m);
    proof {
        assert((m - 1) * (m - 1) <= u64::MAX) by (nonlinear_arith)
            requires
                m <= 0x8000_0000,
                m >= 1,
        ;
    }
    let odd = ((modulo - 1) >> k) as u64;
    let mut omega = pow_mod(g, odd, m);
    let mut inv_omega = pow_mod(omega, (modulo - 2) as u64, m);
    let ghost first = omega as int;
    proof {
        div_mod::lemma_mod_bound(power::pow(g as int, odd as nat), m as int);
        div_mod::lemma_mod_bound(power::pow(omega as int, (modulo - 2) as nat), m as int);
        power::lemma_pow1(first);
        power2::lemma2_to64();
        div_mod::lemma_small_mod(omega as nat, m as nat);
        if pr {
            let factors = choose|factors: Seq<u64>| #[trigger]
                prime::is_factorization(factors, (m - 1) as nat) && prime::is_smallest_generator(
                    m as nat,
                    g as nat,
                    factors,
                );
            unity::lemma_half_power(m as nat, g as nat, factors);
            // the power `2^(k-1)` of `omega` is the power `(modulo - 1) / 2` of `g`
            let e = power2::pow2((k - 1) as nat);
            power2::lemma_pow2_unfold(k as nat);
            assert(odd * e == (m - 1) / 2) by (nonlinear_arith)
                requires
                    m - 1 == odd * (2 * e),
            ;
            transform::lemma_congruent_remainder(power::pow(g as int, odd as nat), p);
            transform::lemma_congruent_power(first, power::pow(g as int, odd as nat), e, p);
            power::lemma_pow_multiplies(g as int, odd as nat, e);
            assert(power::pow(first, e) % p == p - 1);
            // so `omega` is not zero, and has an inverse
            if first == 0 {
                power2::lemma_pow2_pos((k - 1) as nat);
                power::lemma0_pow(e);
                div_mod::lemma_small_mod(0, m as nat);
            }
            fermat::lemma_fermat(m as nat, first as nat);
            power::lemma_pow_adds(first, 1, (m - 2) as nat);
            div_mod::lemma_mul_mod_noop_right(first, power::pow(first, (m - 2) as nat), p);
        }
    }
    let mut omega_pow = [0u32;32];
    let mut inv_omega_pow = [0u32;32];
    let mut i = k - 1;
    while i > 0
        invariant
            m == modulo,
            p == modulo,
            3 <= m <= 0x8000_0000,
            1 <= k <= 32,
            i <= k - 1,
            omega < m,
            inv_omega < m,
            forall|j: int| 0 <= j < 32 ==> omega_pow[j] < modulo && inv_omega_pow[j] < modulo,
            pr ==> omega as int % p == power::pow(first, power2::pow2((k - 1 - i) as nat)) % p,
            pr ==> (omega * inv_omega) % p == 1,
            pr ==> forall|l: int|
                i <= l < k - 1 ==> (#[trigger] omega_pow[l] * inv_omega_pow[l]) % p == 1,
            pr ==> forall|l: int|
                i < l < k - 1 ==> (#[trigger] omega_pow[l] * omega_pow[l]) % p == omega_pow[l - 1],
            pr && i < k - 1 ==> omega == (omega_pow[i as int] * omega_pow[i as int]) % p,
        decreases i,
    {
        i -= 1;
        omega_pow[i] = omega as u32;
        inv_omega_pow[i] = inv_omega as u32;
        proof {
            assert(omega * omega <= u64::MAX && inv_omega * inv_omega <= u64::MAX)
                by (nonlinear_arith)
                requires
                    omega < 0x8000_0000,
                    inv_omega < 0x8000_0000,
            ;
            if pr {
                unity::lemma_square_step(first, (k - 2 - i) as nat, omega as int, p);
                unity::lemma_inverse_square(omega as int, inv_omega as int, p);
                div_mod::lemma_mod_twice(omega * omega, p);
            }
        }
        omega = (omega * omega) % m;
        inv_omega = (inv_omega * inv_omega) % m;
    }
    let mut forward = [0u32;32];
    let mut inverse = [0u32;32];
    let mut zeta: u64 = 1;
    let mut inv_zeta: u64 = 1;
    let ghost mut before: int = 1;
    proof {
        if pr && k >= 2 {
            div_mod::lemma_small_mod(omega as nat, m as nat);
            lemma_minus_one(omega_pow[0] * omega_pow[0], p);
            assert(1 + omega_pow[0] * omega_pow[0] == omega_pow[0] * omega_pow[0] + 1);
        }
        div_mod::lemma_small_mod(1, m as nat);
    }
    let mut i: usize = 0;
    while i < k - 1
        invariant
            m == modulo,
            p == modulo,
            3 <= m <= 0x8000_0000,
            1 <= k <= 32,
            i <= k - 1,
            zeta < m,
            inv_zeta < m,
            forall|j: int| 0 <= j < 32 ==> omega_pow[j] < modulo && inv_omega_pow[j] < modulo,
            forall|j: int| 0 <= j < 32 ==> forward[j] < modulo && inverse[j] < modulo,
            pr ==> forall|l: int|
                0 <= l < k - 1 ==> (#[trigger] omega_pow[l] * inv_omega_pow[l]) % p == 1,
            pr ==> forall|l: int|
                0 < l < k - 1 ==> (#[trigger] omega_pow[l] * omega_pow[l]) % p == omega_pow[l - 1],
            pr && k >= 2 ==> (omega_pow[0] * omega_pow[0] + 1) % p == 0,
            pr ==> (zeta * inv_zeta) % p == 1,
            pr && i < k - 1 ==> (zeta + omega_pow[i as int] * omega_pow[i as int]) % p == 0,
            pr && i >= 1 ==> zeta == (before * inv_omega_pow[i - 1]) % p && forward[i - 1] == (
            omega_pow[i - 1] * before) % p,
            i == 0 ==> zeta == 1,
            pr && i >= 1 ==> (forward[0] * forward[0] + 1) % p == 0,
            pr ==> forall|l: int|
                1 <= l < i ==> (forward[l - 1] + #[trigger] forward[l] * forward[l]) % p == 0,
            pr ==> forall|l: int| 0 <= l < i ==> (forward[l] * #[trigger] inverse[l]) % p == 1,
        decreases k - 1 - i,
    {
        proof {
            assert(omega_pow[i as int] * zeta <= u64::MAX && inv_omega_pow[i as int] * inv_zeta
                <= u64::MAX && zeta * inv_omega_pow[i as int] <= u64::MAX && inv_zeta
                * omega_pow[i as int] <= u64::MAX) by (nonlinear_arith)
                requires
                    omega_pow[i as int] < 0x8000_0000,
                    inv_omega_pow[i as int] < 0x8000_0000,
                    zeta < 0x8000_0000,
                    inv_zeta < 0x8000_0000,
            ;
        }
        let ghost (old_forward, old_inverse) = (forward, inverse);
        forward[i] = (omega_pow[i] as u64 * zeta % m) as u32;
        inverse[i] = (inv_omega_pow[i] as u64 * inv_zeta % m) as u32;
        proof {
            if pr {
                let (r, v) = (omega_pow[i as int] as int, inv_omega_pow[i as int] as int);
                assert((r * v) % p == 1);
                assert(v * r == r * v) by (nonlinear_arith);
                unity::lemma_inverse_product(r, v, zeta as int, inv_zeta as int, p);
                unity::lemma_inverse_product(zeta as int, inv_zeta as int, v, r, p);
                unity::lemma_zeta_next(p, r, v, zeta as int);
                transform::lemma_congruent_remainder(r * zeta, p);
                if i == 0 {
                    assert(r * zeta == r) by (nonlinear_arith)
                        requires
                            zeta == 1,
                    ;
                    div_mod::lemma_small_mod(r as nat, m as nat);
                    assert(forward[0] == r);
                } else {
                    assert(forward[0] == old_forward[0]);
                    let (s, w) = (omega_pow[i - 1] as int, inv_omega_pow[i - 1] as int);
                    assert((s * w) % p == 1);
                    assert((r * r) % p == s);
                    div_mod::lemma_small_mod(s as nat, m as nat);
                    transform::lemma_congruent_remainder(before * w, p);
                    transform::lemma_congruent_remainder(s * before, p);
                    transform::lemma_congruent_sum(zeta as int, zeta as int, r * r, s, p);
                    unity::lemma_root_next(
                        p,
                        s,
                        r,
                        w,
                        before,
                        zeta as int,
                        old_forward[i - 1] as int,
                        forward[i as int] as int,
                    );
                }
                if i + 1 < k - 1 {
                    let next = omega_pow[i + 1] as int;
                    assert((next * next) % p == r);
                    div_mod::lemma_small_mod(r as nat, m as nat);
                    transform::lemma_congruent_sum((zeta * v) % p, (zeta * v) % p, next * next, r, p);
                    assert((zeta * v) % p + next * next == next * next + (zeta * v) % p);
                }
                assert forall|l: int| 1 <= l < i + 1 implies (forward[l - 1] + #[trigger] forward[l]
                    * forward[l]) % p == 0 by {
                    if l < i {
                        assert(forward[l] == old_forward[l] && forward[l - 1] == old_forward[l - 1]);
                    }
                }
                assert forall|l: int| 0 <= l < i + 1 implies (forward[l] * #[trigger] inverse[l]) % p
                    == 1 by {
                    if l < i {
                        assert(forward[l] == old_forward[l] && inverse[l] == old_inverse[l]);
                    }
                }
                before = zeta as int;
            }
        }
        zeta = zeta * inv_omega_pow[i] as u64 % m;
        inv_zeta = inv_zeta * omega_pow[i] as u64 % m;
        i += 1;
    }
    let roots = NttRoots { forward, inverse };
    proof {
        if pr {
            let (fw, iv) = (root_values(forward), root_values(inverse));
            assert forall|l: int| 1 <= l && l + 2 <= k implies (fw[l - 1] + #[trigger] fw[l] * fw[l])
                % p == 0 by {
                assert((forward[l - 1] + forward[l] * forward[l]) % p == 0);
            }
            assert forall|l: int| 0 <= l && l + 2 <= k implies (fw[l] * #[trigger] iv[l]) % p == 1 by {
                assert((forward[l] * inverse[l]) % p == 1);
            }
            assert(k >= 2 ==> (fw[0] * fw[0] + 1) % p == 0);
        }
    }
    roots
}

/// A number whose remainder modulo `2^(c+1)` is `2^c - 1` has `c` trailing
/// one bits.
proof fn lemma_ones(i: nat, c: nat)
    requires
        i % power2::pow2(c + 1) == power2::pow2(c) - 1,
    ensures
        transform::ones(i) == c,
    decreases c,
{
    power2::lemma2_to64();
    power2::lemma_pow2_unfold(c + 1);
    power2::lemma_pow2_pos(c);
    let m = power2::pow2(c) as int;
    let q = i as int / (2 * m);
    div_mod::lemma_fundamental_div_mod(i as int, 2 * m);
    if c == 0 {
        assert(i % 2 == 0);
    } else {
        power2::lemma_pow2_unfold(c);
        let h = power2::pow2((c - 1) as nat) as int;
        power2::lemma_pow2_pos((c - 1) as nat);
        assert(i == 2 * (q * m + h - 1) + 1) by (nonlinear_arith)
            requires
                i == (2 * m) * q + (m - 1),
                m == 2 * h,
        ;
        assert(q * m == m * q) by (nonlinear_arith);
        div_mod::lemma_fundamental_div_mod_converse(i as int / 2, m, q, h - 1);
        lemma_ones(i / 2, (c - 1) as nat);
    }
}

/// Returns the number of trailing one bits of `i`, the level whose root
/// the transform moves on by after block `i`.
fn level_after(i: usize) -> (level: usize)
    requires
        i < 0x8000_0000,
    ensures
        level < 32,
        level == transform::ones(i as nat),
{
    let x = !(i as u64);
    let level = x.trailing_zeros();
    proof {
        std_bits::axiom_u64_trailing_zeros(x);
        let (y, c) = (i as u64, level as u64);
        assert(c < 32) by (bit_vector)
            requires
                y < 0x8000_0000,
                c <= 64,
                (!y) << ((64 - c) as u64) == 0,
        ;
        assert(y & (((1u64 << ((c + 1) as u64)) - 1) as u64) == ((1u64 << c) - 1) as u64)
            by (bit_vector)
            requires
                c < 32,
                ((!y) >> c) & 1 == 1,
                (!y) << ((64 - c) as u64) == 0,
        ;
        power2::lemma2_to64();
        power2::lemma_pow2_strictly_increases(c as nat, 32);
        power2::lemma_pow2_strictly_increases((c + 1) as nat, 64);
        bits::lemma_u64_shl_is_mul(1, c);
        bits::lemma_u64_shl_is_mul(1, (c + 1) as u64);
        bits::lemma_u64_low_bits_mask_is_mod(y, (c + 1) as nat);
        assert(bits::low_bits_mask((c + 1) as nat) == power2::pow2((c + 1) as nat) - 1);
        lemma_ones(i as nat, c as nat);
    }
    level as usize
}

/// The sequence is one that the transforms take: of at least one and at
/// most `2^32` elements, over a modulus up to `2^31`.
pub open spec fn is_transformable<const MOD: u32>(data: Seq<GF<MOD>>) -> bool {
    1 <= data.len() <= 0x1_0000_0000 && 2 <= MOD <= 0x8000_0000
}

/// Returns the number of levels of a transform of `n` elements: the
/// number of factors two in `n`.
fn levels(n: usize) -> (k: usize)
    requires
        n >= 1,
    ensures
        k < 64,
        power2::pow2(k as nat) <= n,
        k == prime::valuation(n as nat),
{
    let k = (n as u64).trailing_zeros() as usize;
    proof {
        gcd::lemma_trailing_zeros(n as u64);
        let q = ((n as u64) >> (k as u64)) as int;
        assert(power2::pow2(k as nat) <= q * power2::pow2(k as nat)) by (nonlinear_arith)
            requires
                q >= 1,
        ;
        prime::lemma_valuation(n as nat, q as nat, k as nat);
    }
    k
}

/// Returns `2^level`, the distance between the two elements of a
/// butterfly at that level.
fn stride(level: usize, k: usize, n: usize) -> (t: usize)
    requires
        level < k < 64,
        power2::pow2(k as nat) <= n,
    ensures
        t == power2::pow2(level as nat),
        1 <= t,
        2 * t <= n,
{
    proof {
        power2::lemma_pow2_pos(level as nat);
        layout::lemma_pow2_double(level as nat);
        if level + 1 < k {
            power2::lemma_pow2_strictly_increases((level + 1) as nat, k as nat);
        }
        power2::lemma2_to64();
        if level > usize::BITS {
            power2::lemma_pow2_strictly_increases(usize::BITS as nat, level as nat);
        }
        bits::lemma_usize_shl_is_mul(1, level);
    }
    1 << level
}

/// The remainders modulo `MOD` of the values of the elements, which for
/// elements of `Z/MOD Z` are the values themselves.
pub open spec fn residues<const MOD: u32>(data: Seq<GF<MOD>>) -> Seq<int> {
    Seq::new(data.len(), |i: int| (data[i]@ % (MOD as nat)) as int)
}

/// The roots as a sequence of integers.
pub open spec fn root_values(roots: [u32; 32]) -> Seq<int> {
    Seq::new(32, |i: int| roots[i] as int)
}

/// A sequence of `n` elements is one that the transform modulo `p` with
/// the roots given is defined for: `n` is a power of two, and the roots
/// are roots for transforms of that many elements.
pub open spec fn is_fit(n: nat, roots: [u32; 32], p: int) -> bool {
    layout::is_capacity(n) && transform::is_good(root_values(roots), p, layout::depth(n))
}

/// A sequence of `2^k` elements is made of `2^(k - level - 1)` blocks of
/// `2^(level + 1)` elements.
proof fn lemma_blocks(n: nat, k: nat, level: nat)
    requires
        n == power2::pow2(k),
        level < k,
    ensures
        ({
            let t = power2::pow2(level);
            let blocks = n / (2 * t);
            &&& 2 * t == power2::pow2(level + 1)
            &&& n == 2 * t * blocks
            &&& n == blocks * (2 * t)
            &&& blocks <= power2::pow2((k - 1) as nat)
        }),
{
    let t = power2::pow2(level);
    let rest = power2::pow2((k - level - 1) as nat);
    power2::lemma_pow2_unfold(level + 1);
    power2::lemma_pow2_pos(level);
    power2::lemma_pow2_adds(level + 1, (k - level - 1) as nat);
    assert(n == rest * (2 * t) + 0) by (nonlinear_arith)
        requires
            n == (2 * t) * rest,
    ;
    div_mod::lemma_fundamental_div_mod_converse(n as int, (2 * t) as int, rest as int, 0);
    assert(n == 2 * t * rest) by (nonlinear_arith)
        requires
            n == (2 * t) * rest,
    ;
    if level > 0 {
        power2::lemma_pow2_strictly_increases((k - level - 1) as nat, (k - 1) as nat);
    }
}

/// Of the sequence `data`, which is on the way from a transform of `a`
/// with blocks `2 t` wide to one with blocks `t` wide, the elements before
/// `base + j` are done, and the `j` elements from `base + t` on.
spec fn is_stage<const MOD: u32>(
    data: Seq<GF<MOD>>,
    a: Seq<int>,
    r: Seq<int>,
    t: nat,
    base: int,
    j: int,
) -> bool {
    forall|idx: int|
        0 <= idx < data.len() ==> ((#[trigger] data[idx])@ % (MOD as nat)) as int == (if idx < base
            + j || (base + t <= idx < base + t + j) {
            transform::state(a, r, MOD as int, t, idx)
        } else {
            transform::state(a, r, MOD as int, 2 * t, idx)
        })
}

/// A butterfly of the block `i` takes the sequence one step on.
proof fn lemma_stage_step<const MOD: u32>(
    d0: Seq<GF<MOD>>,
    d2: Seq<GF<MOD>>,
    a: Seq<int>,
    r: Seq<int>,
    t: nat,
    count: nat,
    i: nat,
    j: nat,
    c: nat,
)
    requires
        MOD >= 2,
        t >= 1,
        a.len() == 2 * t * count,
        d0.len() == a.len(),
        d2.len() == a.len(),
        i < count,
        j < t,
        is_stage(d0, a, r, t, (i * (2 * t)) as int, j as int),
        c == transform::factor(r, MOD as int, i),
        transform::is_congruent((c * c) as int, transform::point(r, MOD as int, i), MOD as int),
        forall|idx: int|
            0 <= idx < d0.len() && idx != i * (2 * t) + j && idx != i * (2 * t) + t + j ==> d2[idx]
                == d0[idx],
        d2[(i * (2 * t) + j) as int]@ == (d0[(i * (2 * t) + j) as int]@ + (d0[(i * (2 * t) + t
            + j) as int]@ * c) % (MOD as nat)) % (MOD as nat),
        d2[(i * (2 * t) + t + j) as int]@ == (d0[(i * (2 * t) + j) as int]@ - (d0[(i * (2 * t) + t
            + j) as int]@ * c) % (MOD as nat)) % (MOD as int),
    ensures
        is_stage(d2, a, r, t, (i * (2 * t)) as int, (j + 1) as int),
{
    let p = MOD as int;
    let base = (i * (2 * t)) as int;
    assert(base + 2 * t <= a.len()) by (nonlinear_arith)
        requires
            base == i * (2 * t),
            i + 1 <= count,
            a.len() == 2 * t * count,
    ;
    let (x, y) = (d0[base + j]@ as int, d0[base + t + j]@ as int);
    let (rx, ry) = (x % p, y % p);
    assert(rx == transform::state(a, r, p, 2 * t, base + j));
    assert(ry == transform::state(a, r, p, 2 * t, base + t + j));
    transform::lemma_state_step(a, r, p, t, count, i, j);
    transform::lemma_congruent_remainder(x, p);
    transform::lemma_congruent_remainder(y, p);
    transform::lemma_congruent_product(ry, y, c as int, c as int, p);
    transform::lemma_congruent_remainder(ry * c, p);
    transform::lemma_congruent_remainder(y * c, p);
    transform::lemma_congruent_sum(rx, x, (ry * c) % p, (y * c) % p, p);
    transform::lemma_congruent_remainder(x + (y * c) % p, p);
    transform::lemma_congruent_remainder(x - (y * c) % p, p);
    assert forall|idx: int| 0 <= idx < d2.len() implies ((#[trigger] d2[idx])@ % (MOD as nat)) as int
        == (if idx < base + (j + 1) || (base + t <= idx < base + t + (j + 1)) {
        transform::state(a, r, p, t, idx)
    } else {
        transform::state(a, r, p, 2 * t, idx)
    }) by {
        if idx != base + j && idx != base + t + j {
            assert(d2[idx] == d0[idx]);
        }
    }
}

/// Performs the Number Theoretic Transform in place, with the roots given.
///
/// ## Definition
///
/// For the input `a = (a0, a1, ..., a(n-1))`, the output is
/// `f = (f0, f1, ..., f(n-1))` with
///
/// `fk = sum_j {aj * xk^j} mod MOD`
///
/// where `xk` is the point of the roots for position `k`. With the roots
/// for `MOD`, the points are the powers of a primitive root of unity of
/// order `n`, in bit-reversed order of their exponents.
///
/// ## Requirements
///
/// For the result to be the transform:
///
/// - `data.len()` must be a power of two;
/// - `roots` must be roots for transforms of that many elements, as the
///   forward roots for a prime `MOD` of the form `c * 2^k + 1` with
///   `k >= log2(data.len())` are.
///
/// ## Complexity
///
/// `O(n log n)` where `n = data.len()`
pub fn ntt_with<const MOD: u32>(data: &mut [GF<MOD>], roots: &[u32; 32])
    requires
        is_transformable(old(data)@),
    ensures
        final(data)@.len() == old(data)@.len(),
        is_fit(old(data)@.len(), *roots, MOD as int) ==> residues(final(data)@)
            == transform::transform(residues(old(data)@), root_values(*roots), MOD as int),
{
    let n = data.len();
    let k = levels(n);
    let ghost a = residues(data@);
    let ghost r = root_values(*roots);
    let ghost p = MOD as int;
    let ghost fit = is_fit(n as nat, *roots, p);
    proof {
        if fit {
            power2::lemma_pow2_pos(layout::depth(n as nat));
            prime::lemma_valuation(n as nat, 1, layout::depth(n as nat));
            assert forall|idx: int| 0 <= idx < n implies ((#[trigger] data@[idx])@ % (
            MOD as nat)) as int == transform::state(a, r, p, n as nat, idx) by {
                div_mod::lemma_mod_bound(data@[idx]@ as int, p);
                transform::lemma_state_whole(a, r, p, idx);
            }
        }
    }
    let mut level = k;
    while level > 0
        invariant
            level <= k < 64,
            power2::pow2(k as nat) <= n,
            n == data@.len() == old(data)@.len() == a.len(),
            n <= 0x1_0000_0000,
            2 <= MOD <= 0x8000_0000,
            p == MOD,
            r == root_values(*roots),
            fit ==> n == power2::pow2(k as nat) && transform::is_good(r, p, k as nat),
            fit ==> forall|idx: int|
                0 <= idx < n ==> ((#[trigger] data@[idx])@ % (MOD as nat)) as int
                    == transform::state(a, r, p, power2::pow2(level as nat), idx),
        decreases level,
    {
        level -= 1;
        let t = stride(level, k, n);
        let mut coef = GF::<MOD>::new(1);
        let width: usize = 2 * t;
        let blocks = n / width;
        let mut i: usize = 0;
        proof {
            power2::lemma_pow2_unfold((level + 1) as nat);
            if fit {
                lemma_blocks(n as nat, k as nat, level as nat);
                assert(is_stage(data@, a, r, t as nat, 0, 0));
            }
        }
        while i < blocks
            invariant
                i <= blocks,
                blocks == n / width,
                width == 2 * t,
                1 <= t,
                2 * t <= n,
                level < k < 64,
                t == power2::pow2(level as nat),
                n == data@.len() == old(data)@.len() == a.len(),
                n <= 0x1_0000_0000,
                2 <= MOD <= 0x8000_0000,
                p == MOD,
                r == root_values(*roots),
                coef@ == transform::factor(r, p, i as nat),
                fit ==> n == 2 * t * blocks && n == blocks * (2 * t) && blocks <= power2::pow2(
                    (k - 1) as nat,
                ) && transform::is_good(r, p, k as nat),
                fit ==> is_stage(data@, a, r, t as nat, (i * (2 * t)) as int, 0),
            decreases blocks - i,
        {
            proof {
                div_mod::lemma_fundamental_div_mod(n as int, width as int);
                div_mod::lemma_mod_bound(n as int, width as int);
                assert((i + 1) * (2 * t) <= n) by (nonlinear_arith)
                    requires
                        i + 1 <= blocks,
                        n == (2 * t) * blocks + n % width,
                        n % width >= 0,
                        t >= 1,
                ;
                assert(i * (2 * t) + 2 * t == (i + 1) * (2 * t)) by (nonlinear_arith);
                assert(i * (2 * t) >= 0) by (nonlinear_arith)
                    requires
                        t >= 1,
                ;
                assert(i < 0x8000_0000) by (nonlinear_arith)
                    requires
                        (i + 1) * (2 * t) <= n,
                        n <= 0x1_0000_0000,
                        t >= 1,
                ;
                if fit {
                    transform::lemma_point_square(r, p, k as nat, i as nat);
                }
            }
            let base = i * width;
            let mut j: usize = 0;
            while j < t
                invariant
                    j <= t,
                    1 <= t,
                    i < blocks,
                    base == i * (2 * t),
                    base + 2 * t <= n,
                    n == data@.len() == old(data)@.len() == a.len(),
                    2 <= MOD <= 0x8000_0000,
                    p == MOD,
                    coef@ == transform::factor(r, p, i as nat),
                    fit ==> n == 2 * t * blocks && transform::is_congruent(
                        (coef@ * coef@) as int,
                        transform::point(r, p, i as nat),
                        p,
                    ),
                    fit ==> is_stage(data@, a, r, t as nat, base as int, j as int),
                decreases t - j,
            {
                let ghost d0 = data@;
                let x = data[base + j];
                let y = data[base + t + j];
                data[base + j] = x + y * coef;
                data[base + t + j] = x - y * coef;
                proof {
                    if fit {
                        lemma_stage_step(
                            d0,
                            data@,
                            a,
                            r,
                            t as nat,
                            blocks as nat,
                            i as nat,
                            j as nat,
                            coef@,
                        );
                    }
                }
                j += 1;
            }
            let l = level_after(i);
            proof {
                div_mod::lemma_mul_mod_noop_right(coef@ as int, roots[l as int] as int, p);
                if fit {
                    let next = ((i + 1) * (2 * t)) as int;
                    assert(next == base + 2 * t);
                    assert forall|idx: int| 0 <= idx < n implies ((#[trigger] data@[idx])@ % (
                    MOD as nat)) as int == (if idx < next + 0 || (next + t <= idx < next + t + 0) {
                        transform::state(a, r, p, t as nat, idx)
                    } else {
                        transform::state(a, r, p, 2 * (t as nat), idx)
                    }) by {}
                }
            }
            coef = coef * GF::<MOD>::new(roots[l]);
            i += 1;
        }
        proof {
            if fit {
                assert forall|idx: int| 0 <= idx < n implies ((#[trigger] data@[idx])@ % (
                MOD as nat)) as int == transform::state(
                    a,
                    r,
                    p,
                    power2::pow2(level as nat),
                    idx,
                ) by {}
            }
        }
    }
    proof {
        if fit {
            power2::lemma2_to64();
            assert forall|idx: int| 0 <= idx < n implies residues(data@)[idx]
                == transform::transform(a, r, p)[idx] by {
                transform::lemma_state_final(a, r, p, idx);
            }
            assert(residues(data@) =~= transform::transform(a, r, p));
        }
    }
}

/// The values of the elements, as integers.
pub open spec fn values<const MOD: u32>(data: Seq<GF<MOD>>) -> Seq<int> {
    Seq::new(data.len(), |i: int| data[i]@ as int)
}

/// `a` is a sequence of remainders modulo `p` whose transform with the
/// roots `forward` is `f`, and `inverse` holds the inverses of those
/// roots.
pub open spec fn is_source(
    a: Seq<int>,
    forward: Seq<int>,
    inverse: Seq<int>,
    p: int,
    f: Seq<int>,
) -> bool {
    &&& a.len() == f.len()
    &&& forall|i: int| 0 <= i < a.len() ==> 0 <= #[trigger] a[i] < p
    &&& layout::is_capacity(a.len())
    &&& transform::is_good(forward, p, layout::depth(a.len()))
    &&& transform::is_inverse(forward, inverse, p, layout::depth(a.len()))
    &&& transform::transform(a, forward, p) == f
}

/// Of the sequence `data`, which is on the way back from `s` times a
/// transform of `a` with blocks `t` wide to `2 s` times one with blocks
/// `2 t` wide, the elements before `base + j` are done, and the `j`
/// elements from `base + t` on.
spec fn is_back_stage<const MOD: u32>(
    data: Seq<GF<MOD>>,
    a: Seq<int>,
    r: Seq<int>,
    s: int,
    t: nat,
    base: int,
    j: int,
) -> bool {
    forall|idx: int|
        0 <= idx < data.len() ==> ((#[trigger] data[idx])@ % (MOD as nat)) as int == (if idx < base
            + j || (base + t <= idx < base + t + j) {
            (2 * s * transform::state(a, r, MOD as int, 2 * t, idx)) % (MOD as int)
        } else {
            (s * transform::state(a, r, MOD as int, t, idx)) % (MOD as int)
        })
}

/// A butterfly of the block `i` takes the sequence one step back.
proof fn lemma_back_stage_step<const MOD: u32>(
    d0: Seq<GF<MOD>>,
    d2: Seq<GF<MOD>>,
    a: Seq<int>,
    r: Seq<int>,
    s: int,
    t: nat,
    count: nat,
    i: nat,
    j: nat,
    c: nat,
)
    requires
        MOD >= 2,
        t >= 1,
        a.len() == 2 * t * count,
        d0.len() == a.len(),
        d2.len() == a.len(),
        i < count,
        j < t,
        is_back_stage(d0, a, r, s, t, (i * (2 * t)) as int, j as int),
        transform::is_congruent(
            transform::factor(r, MOD as int, i) * transform::factor(r, MOD as int, i),
            transform::point(r, MOD as int, i),
            MOD as int,
        ),
        (transform::factor(r, MOD as int, i) * c) % (MOD as int) == 1,
        forall|idx: int|
            0 <= idx < d0.len() && idx != i * (2 * t) + j && idx != i * (2 * t) + t + j ==> d2[idx]
                == d0[idx],
        d2[(i * (2 * t) + j) as int]@ == (d0[(i * (2 * t) + j) as int]@ + d0[(i * (2 * t) + t
            + j) as int]@) % (MOD as nat),
        d2[(i * (2 * t) + t + j) as int]@ == (((d0[(i * (2 * t) + j) as int]@ - d0[(i * (2 * t) + t
            + j) as int]@) % (MOD as int)) * c) % (MOD as int),
    ensures
        is_back_stage(d2, a, r, s, t, (i * (2 * t)) as int, (j + 1) as int),
{
    let p = MOD as int;
    let base = (i * (2 * t)) as int;
    assert(base + 2 * t <= a.len()) by (nonlinear_arith)
        requires
            base == i * (2 * t),
            i + 1 <= count,
            a.len() == 2 * t * count,
    ;
    let (x, y) = (d0[base + j]@ as int, d0[base + t + j]@ as int);
    assert(x % p == (s * transform::state(a, r, p, t, base + j)) % p);
    assert(y % p == (s * transform::state(a, r, p, t, base + t + j)) % p);
    transform::lemma_state_back(a, r, p, t, count, i, j, s, c as int, x, y);
    transform::lemma_congruent_remainder(x + y, p);
    transform::lemma_congruent_remainder(((x - y) % p) * c, p);
    assert forall|idx: int| 0 <= idx < d2.len() implies ((#[trigger] d2[idx])@ % (MOD as nat)) as int
        == (if idx < base + (j + 1) || (base + t <= idx < base + t + (j + 1)) {
        (2 * s * transform::state(a, r, p, 2 * t, idx)) % p
    } else {
        (s * transform::state(a, r, p, t, idx)) % p
    }) by {
        if idx != base + j && idx != base + t + j {
            assert(d2[idx] == d0[idx]);
        }
    }
}

/// Performs the inverse Number Theoretic Transform in place, with the
/// roots given.
///
/// ## Definition
///
/// The output is the sequence of remainders modulo `MOD` whose transform
/// by [`ntt_with`] the input is.
///
/// ## Requirements
///
/// For the result to be that sequence:
///
/// - `data.len()` must be a power of two;
/// - `MOD` must be a prime;
/// - `inv_roots` must be the inverses of the roots of the transform, as
///   the inverse roots for a prime `MOD` of the form `c * 2^k + 1` with
///   `k >= log2(data.len())` are of the forward roots.
///
/// ## Complexity
///
/// `O(n log n)` where `n = data.len()`
pub fn intt_with<const MOD: u32>(data: &mut [GF<MOD>], inv_roots: &[u32; 32])
    requires
        is_transformable(old(data)@),
        MOD >= 3,
    ensures
        final(data)@.len() == old(data)@.len(),
        prime::is_prime_number(MOD as nat) ==> forall|forward: Seq<int>, a: Seq<int>| #[trigger]
            is_source(a, forward, root_values(*inv_roots), MOD as int, residues(old(data)@))
                ==> values(final(data)@) == a,
{
    let n = data.len();
    let k = levels(n);
    let ghost f = residues(data@);
    let ghost r = root_values(*inv_roots);
    let ghost p = MOD as int;
    let ghost cap = layout::is_capacity(n as nat);
    proof {
        power2::lemma2_to64();
        if cap {
            power2::lemma_pow2_pos(layout::depth(n as nat));
            prime::lemma_valuation(n as nat, 1, layout::depth(n as nat));
        }
        assert forall|forward: Seq<int>, a: Seq<int>| #[trigger]
            is_source(a, forward, r, p, f) implies is_back_stage(data@, a, forward, 1, 1, 0, 0) by {
            assert forall|idx: int| 0 <= idx < n implies ((#[trigger] data@[idx])@ % (
            MOD as nat)) as int == (1 * transform::state(a, forward, p, 1, idx)) % p by {
                transform::lemma_state_final(a, forward, p, idx);
                assert(transform::transform(a, forward, p)[idx] == f[idx]);
                div_mod::lemma_mod_twice(data@[idx]@ as int, p);
            }
        }
    }
    let mut level: usize = 0;
    while level < k
        invariant
            level <= k < 64,
            power2::pow2(k as nat) <= n,
            n == data@.len() == old(data)@.len() == f.len(),
            n <= 0x1_0000_0000,
            3 <= MOD <= 0x8000_0000,
            p == MOD,
            r == root_values(*inv_roots),
            cap == layout::is_capacity(n as nat),
            cap ==> n == power2::pow2(k as nat) && k == layout::depth(n as nat),
            forall|forward: Seq<int>, a: Seq<int>| #[trigger]
                is_source(a, forward, r, p, f) ==> is_back_stage(
                    data@,
                    a,
                    forward,
                    power2::pow2(level as nat) as int,
                    power2::pow2(level as nat),
                    0,
                    0,
                ),
        decreases k - level,
    {
        let t = stride(level, k, n);
        let mut coef = GF::<MOD>::new(1);
        let width: usize = 2 * t;
        let blocks = n / width;
        let ghost s = t as int;
        proof {
            power2::lemma_pow2_unfold((level + 1) as nat);
            if cap {
                lemma_blocks(n as nat, k as nat, level as nat);
            }
        }
        let mut i: usize = 0;
        while i < blocks
            invariant
                i <= blocks,
                blocks == n / width,
                width == 2 * t,
                1 <= t,
                2 * t <= n,
                level < k < 64,
                t == power2::pow2(level as nat),
                s == t,
                n == data@.len() == old(data)@.len() == f.len(),
                n <= 0x1_0000_0000,
                3 <= MOD <= 0x8000_0000,
                p == MOD,
                r == root_values(*inv_roots),
                cap == layout::is_capacity(n as nat),
                coef@ == transform::factor(r, p, i as nat),
                cap ==> n == 2 * t * blocks && n == blocks * (2 * t) && blocks <= power2::pow2(
                    (k - 1) as nat,
                ) && k == layout::depth(n as nat),
                forall|forward: Seq<int>, a: Seq<int>| #[trigger]
                    is_source(a, forward, r, p, f) ==> is_back_stage(
                        data@,
                        a,
                        forward,
                        s,
                        t as nat,
                        (i * (2 * t)) as int,
                        0,
                    ),
            decreases blocks - i,
        {
            proof {
                div_mod::lemma_fundamental_div_mod(n as int, width as int);
                div_mod::lemma_mod_bound(n as int, width as int);
                assert((i + 1) * (2 * t) <= n) by (nonlinear_arith)
                    requires
                        i + 1 <= blocks,
                        n == (2 * t) * blocks + n % width,
                        n % width >= 0,
                        t >= 1,
                ;
                assert(i * (2 * t) + 2 * t == (i + 1) * (2 * t)) by (nonlinear_arith);
                assert(i * (2 * t) >= 0) by (nonlinear_arith)
                    requires
                        t >= 1,
                ;
                assert(i < 0x8000_0000) by (nonlinear_arith)
                    requires
                        (i + 1) * (2 * t) <= n,
                        n <= 0x1_0000_0000,
                        t >= 1,
                ;
            }
            let base = i * width;
            let mut j: usize = 0;
            while j < t
                invariant
                    j <= t,
                    1 <= t,
                    i < blocks,
                    level < k < 64,
                    base == i * (2 * t),
                    base + 2 * t <= n,
                    n == data@.len() == old(data)@.len() == f.len(),
                    3 <= MOD <= 0x8000_0000,
                    p == MOD,
                    cap == layout::is_capacity(n as nat),
                    coef@ == transform::factor(r, p, i as nat),
                    cap ==> n == 2 * t * blocks && blocks <= power2::pow2((k - 1) as nat) && k
                        == layout::depth(n as nat),
                    forall|forward: Seq<int>, a: Seq<int>| #[trigger]
                        is_source(a, forward, r, p, f) ==> is_back_stage(
                            data@,
                            a,
                            forward,
                            s,
                            t as nat,
                            base as int,
                            j as int,
                        ),
                decreases t - j,
            {
                let ghost d0 = data@;
                let x = data[base + j];
                let y = data[base + t + j];
                data[base + j] = x + y;
                data[base + t + j] = (x - y) * coef;
                proof {
                    assert forall|forward: Seq<int>, a: Seq<int>| #[trigger]
                        is_source(a, forward, r, p, f) implies is_back_stage(
                        data@,
                        a,
                        forward,
                        s,
                        t as nat,
                        base as int,
                        (j + 1) as int,
                    ) by {
                        transform::lemma_point_square(forward, p, k as nat, i as nat);
                        transform::lemma_inverse_factor(forward, r, p, k as nat, i as nat);
                        lemma_back_stage_step(
                            d0,
                            data@,
                            a,
                            forward,
                            s,
                            t as nat,
                            blocks as nat,
                            i as nat,
                            j as nat,
                            coef@,
                        );
                    }
                }
                j += 1;
            }
            let l = level_after(i);
            proof {
                div_mod::lemma_mul_mod_noop_right(coef@ as int, inv_roots[l as int] as int, p);
                let next = ((i + 1) * (2 * t)) as int;
                assert(next == base + 2 * t);
                assert forall|forward: Seq<int>, a: Seq<int>| #[trigger]
                    is_source(a, forward, r, p, f) implies is_back_stage(
                    data@,
                    a,
                    forward,
                    s,
                    t as nat,
                    next,
                    0,
                ) by {
                    assert(is_back_stage(data@, a, forward, s, t as nat, base as int, t as int));
                    assert forall|idx: int| 0 <= idx < n implies ((#[trigger] data@[idx])@ % (
                    MOD as nat)) as int == (if idx < next + 0 || (next + t <= idx < next + t + 0) {
                        (2 * s * transform::state(a, forward, p, 2 * (t as nat), idx)) % p
                    } else {
                        (s * transform::state(a, forward, p, t as nat, idx)) % p
                    }) by {}
                }
            }
            coef = coef * GF::<MOD>::new(inv_roots[l]);
            i += 1;
        }
        proof {
            assert forall|forward: Seq<int>, a: Seq<int>| #[trigger]
                is_source(a, forward, r, p, f) implies is_back_stage(
                data@,
                a,
                forward,
                power2::pow2((level + 1) as nat) as int,
                power2::pow2((level + 1) as nat),
                0,
                0,
            ) by {
                assert(is_back_stage(data@, a, forward, s, t as nat, (blocks * (2 * t)) as int, 0));
                assert forall|idx: int| 0 <= idx < n implies ((#[trigger] data@[idx])@ % (
                MOD as nat)) as int == (power2::pow2((level + 1) as nat) * transform::state(
                    a,
                    forward,
                    p,
                    power2::pow2((level + 1) as nat),
                    idx,
                )) % p by {}
            }
        }
        level += 1;
    }
    proof {
        div_mod::lemma_small_mod(2, MOD as nat);
    }
    let half = GF::<MOD>::new(2).inv();
    let coef = half.pow(k as u32);
    let ghost scaled = data@;
    let mut i: usize = 0;
    while i < n
        invariant
            i <= n,
            n == data@.len() == old(data)@.len() == scaled.len(),
            forall|idx: int| 0 <= idx < i ==> (#[trigger] data@[idx])@ == (scaled[idx]@ * coef@) % (
            MOD as nat),
            forall|idx: int| i <= idx < n ==> data@[idx] == scaled[idx],
        decreases n - i,
    {
        data[i] = data[i] * coef;
        i += 1;
    }
    proof {
        if prime::is_prime_number(MOD as nat) {
            assert(half@ != 0) by {
                if half@ == 0 {
                    assert(2 * half@ == 0);
                    div_mod::lemma_small_mod(0, MOD as nat);
                }
            }
            transform::lemma_halves(half@ as int, k as nat, p);
            let up = power2::pow2(k as nat) as int;
            let down = power::pow(half@ as int, k as nat);
            assert forall|forward: Seq<int>, a: Seq<int>| #[trigger]
                is_source(a, forward, r, p, f) implies values(data@) == a by {
                assert(is_back_stage(scaled, a, forward, up, n as nat, 0, 0));
                assert forall|idx: int| 0 <= idx < n implies values(data@)[idx] == a[idx] by {
                    let d = scaled[idx]@ as int;
                    transform::lemma_state_whole(a, forward, p, idx);
                    assert(d % p == (up * a[idx]) % p);
                    transform::lemma_congruent_remainder(down, p);
                    transform::lemma_congruent_product(d, up * a[idx], coef@ as int, down, p);
                    assert((up * a[idx]) * down == a[idx] * (up * down)) by (nonlinear_arith);
                    div_mod::lemma_small_mod(1, MOD as nat);
                    transform::lemma_congruent_product(a[idx], a[idx], up * down, 1, p);
                    div_mod::lemma_small_mod(a[idx] as nat, MOD as nat);
                    assert(a[idx] * 1 == a[idx]);
                }
                assert(values(data@) =~= a);
            }
        }
    }
}

/// The inverse transform of the transform of a sequence is the sequence:
/// where `between` is what [`ntt_with`] makes of `before` with the forward
/// roots of a table for a prime `MOD`, and `after` what [`intt_with`]
/// makes of `between` with the inverse roots of the same table, `after`
/// holds the remainders modulo `MOD` of the values of `before`, which for
/// elements of `Z/MOD Z` are the values.
pub proof fn lemma_round_trip<const MOD: u32>(
    roots: NttRoots,
    before: Seq<GF<MOD>>,
    between: Seq<GF<MOD>>,
    after: Seq<GF<MOD>>,
)
    requires
        prime::is_prime_number(MOD as nat),
        is_root_pair(roots, MOD),
        layout::is_capacity(before.len()),
        layout::depth(before.len()) <= prime::valuation((MOD - 1) as nat),
        is_fit(before.len(), roots.forward, MOD as int) ==> residues(between)
            == transform::transform(residues(before), root_values(roots.forward), MOD as int),
        forall|forward: Seq<int>, a: Seq<int>| #[trigger]
            is_source(a, forward, root_values(roots.inverse), MOD as int, residues(between))
                ==> values(after) == a,
    ensures
        values(after) == residues(before),
{
    let (fw, iv) = (root_values(roots.forward), root_values(roots.inverse));
    let a = residues(before);
    transform::lemma_fewer_levels(
        fw,
        iv,
        MOD as int,
        prime::valuation((MOD - 1) as nat),
        layout::depth(before.len()),
    );
    assert forall|i: int| 0 <= i < a.len() implies 0 <= #[trigger] a[i] < MOD by {
        div_mod::lemma_mod_bound(before[i]@ as int, MOD as int);
    }
    assert(is_source(a, fw, iv, MOD as int, residues(between)));
}

/// Performs the Number Theoretic Transform in place.
///
/// ## Definition
///
/// As for [`ntt_with`], which this calls with the forward roots for
/// `MOD`.
///
/// ## Requirements
///
/// For the result to be the transform:
///
/// - `data.len()` must be a power of two;
/// - `MOD` must be a prime of the form `c * 2^k + 1` where
///   `k >= log2(data.len())`.
///
/// ## Complexity
///
/// `O(n log n)` where `n = data.len()`
pub fn ntt<const MOD: u32>(data: &mut [GF<MOD>])
    requires
        is_transformable(old(data)@),
        is_ntt_modulus(MOD),
    ensures
        final(data)@.len() == old(data)@.len(),
        prime::is_prime_number(MOD as nat) && layout::is_capacity(old(data)@.len())
            && layout::depth(old(data)@.len()) <= prime::valuation((MOD - 1) as nat)
            ==> exists|roots: NttRoots| #[trigger]
            is_root_pair(roots, MOD) && residues(final(data)@) == transform::transform(
                residues(old(data)@),
                root_values(roots.forward),
                MOD as int,
            ),
{
    let roots = get_ntt_roots(MOD);
    proof {
        if layout::depth(data@.len()) <= prime::valuation((MOD - 1) as nat) {
            transform::lemma_fewer_levels(
                root_values(roots.forward),
                root_values(roots.inverse),
                MOD as int,
                prime::valuation((MOD - 1) as nat),
                layout::depth(data@.len()),
            );
        }
    }
    ntt_with(data, &roots.forward);
    proof {
        if prime::is_prime_number(MOD as nat) {
            assert(is_root_pair(roots, MOD));
        }
    }
}

/// Performs the inverse Number Theoretic Transform in place.
///
/// ## Definition
///
/// As for [`intt_with`], which this calls with the inverse roots for
/// `MOD`.
///
/// ## Requirements
///
/// For the result to be the sequence whose transform the input is:
///
/// - `data.len()` must be a power of two;
/// - `MOD` must be a prime of the form `c * 2^k + 1` where
///   `k >= log2(data.len())`.
///
/// ## Complexity
///
/// `O(n log n)` where `n = data.len()`
pub fn intt<const MOD: u32>(data: &mut [GF<MOD>])
    requires
        is_transformable(old(data)@),
        is_ntt_modulus(MOD),
    ensures
        final(data)@.len() == old(data)@.len(),
        prime::is_prime_number(MOD as nat) ==> exists|roots: NttRoots| #[trigger]
            is_root_pair(roots, MOD) && forall|a: Seq<int>| #[trigger]
                is_source(
                    a,
                    root_values(roots.forward),
                    root_values(roots.inverse),
                    MOD as int,
                    residues(old(data)@),
                ) ==> values(final(data)@) == a,
{
    let roots = get_ntt_roots(MOD);
    intt_with(data, &roots.inverse);
    proof {
        if prime::is_prime_number(MOD as nat) {
            assert(is_root_pair(roots, MOD));
        }
    }
}

/// The first `size` coefficients of the product of the polynomials with
/// the coefficients `a` and `b`, each reduced modulo `p`.
spec fn reduced_product(a: Seq<int>, b: Seq<int>, p: int, size: nat) -> Seq<int> {
    Seq::new(size, |k: int| transform::product_term(a, b, k, a.len()) % p)
}

/// The products of the values of two polynomials at the points of the
/// roots are the transform of the product of the polynomials.
proof fn lemma_pointwise(
    a: Seq<int>,
    b: Seq<int>,
    padded_a: Seq<int>,
    padded_b: Seq<int>,
    fc: Seq<int>,
    forward: Seq<int>,
    inverse: Seq<int>,
    p: int,
)
    requires
        p >= 2,
        a.len() >= 1,
        b.len() >= 1,
        a.len() + b.len() <= fc.len() + 1,
        padded_a.len() == fc.len(),
        padded_b.len() == fc.len(),
        forall|k: int| 0 <= k < fc.len() ==> #[trigger] padded_a[k] == transform::coefficient(a, k),
        forall|k: int| 0 <= k < fc.len() ==> #[trigger] padded_b[k] == transform::coefficient(b, k),
        forall|k: int|
            0 <= k < fc.len() ==> #[trigger] fc[k] == (transform::transform(padded_a, forward, p)[k]
                * transform::transform(padded_b, forward, p)[k]) % p,
        layout::is_capacity(fc.len()),
        transform::is_good(forward, p, layout::depth(fc.len())),
        transform::is_inverse(forward, inverse, p, layout::depth(fc.len())),
    ensures
        is_source(reduced_product(a, b, p, fc.len()), forward, inverse, p, fc),
{
    let size = fc.len();
    let reduced = reduced_product(a, b, p, size);
    let whole = transform::partial_product(a, b, a.len(), size);
    assert forall|k: int| 0 <= k < size implies 0 <= #[trigger] reduced[k] < p by {
        div_mod::lemma_mod_bound(transform::product_term(a, b, k, a.len()), p);
    }
    assert forall|k: int| 0 <= k < size implies transform::is_congruent(
        #[trigger] reduced[k],
        whole[k],
        p,
    ) by {
        transform::lemma_congruent_remainder(whole[k], p);
    }
    assert(a.take(a.len() as int) =~= a);
    assert forall|idx: int| 0 <= idx < size implies transform::transform(reduced, forward, p)[idx]
        == fc[idx] by {
        let x = transform::point(forward, p, idx as nat);
        transform::lemma_evaluation_congruent(reduced, whole, x, p);
        transform::lemma_evaluation_product(a, b, a.len(), size, x);
        transform::lemma_evaluation_padded(a, padded_a, x);
        transform::lemma_evaluation_padded(b, padded_b, x);
        let (ea, eb) = (transform::evaluation(padded_a, x), transform::evaluation(padded_b, x));
        div_mod::lemma_mul_mod_noop_general(ea, eb, p);
    }
    assert(transform::transform(reduced, forward, p) =~= fc);
}

/// Computes the convolution of two sequences through the NTT, with the
/// roots given.
///
/// ## Definition
///
/// The convolution of `a` and `b` is the sequence `c` of
/// `a.len() + b.len() - 1` elements with `ck = sum_i ai * b(k-i) mod MOD`;
/// the empty sequence, where `a` or `b` is empty.
///
/// ## Requirements
///
/// For the result to be the convolution, `MOD` must be a prime of the
/// form `c * 2^k + 1` where `2^k >= lhs.len() + rhs.len() - 1`, and `roots`
/// the roots for `MOD`, as [`get_ntt_roots`] returns them.
///
/// ## Complexity
///
/// `O(n log n)` where `n` is the smallest power of two
/// `>= lhs.len() + rhs.len() - 1`.
pub fn ntt_conv_with<const MOD: u32>(lhs: &[GF<MOD>], rhs: &[GF<MOD>], roots: &NttRoots) -> (product:
    Vec<GF<MOD>>)
    requires
        lhs@.len() == 0 || rhs@.len() == 0 || (3 <= MOD <= 0x8000_0000 && lhs@.len() + rhs@.len()
            <= 0x8000_0000),
    ensures
        product@.len() == if lhs@.len() == 0 || rhs@.len() == 0 {
            0
        } else {
            lhs@.len() + rhs@.len() - 1
        },
        prime::is_prime_number(MOD as nat) && is_root_pair(*roots, MOD) && lhs@.len() + rhs@.len()
            <= power2::pow2(prime::valuation((MOD - 1) as nat)) + 1 ==> values(product@)
            == transform::convolution(residues(lhs@), residues(rhs@), MOD as int),
{
    let ghost p = MOD as int;
    let ghost (ra, rb) = (residues(lhs@), residues(rhs@));
    if lhs.len() == 0 || rhs.len() == 0 {
        let product: Vec<GF<MOD>> = Vec::new();
        proof {
            assert(values(product@) =~= transform::convolution(ra, rb, p));
        }
        return product;
    }
    let len = lhs.len() + rhs.len() - 1;
    proof {
        layout::lemma_capacity_for(len as nat);
    }
    let size = layout::capacity(len);
    let mut a: Vec<GF<MOD>> = Vec::with_capacity(size);
    let mut b: Vec<GF<MOD>> = Vec::with_capacity(size);
    let mut i: usize = 0;
    while i < size
        invariant
            i <= size,
            a@.len() == i,
            b@.len() == i,
            MOD >= 3,
            p == MOD,
            lhs@.len() <= len <= size,
            rhs@.len() <= len,
            ra == residues(lhs@),
            rb == residues(rhs@),
            forall|k: int|
                0 <= k < i ==> #[trigger] residues(a@)[k] == transform::coefficient(ra, k),
            forall|k: int|
                0 <= k < i ==> #[trigger] residues(b@)[k] == transform::coefficient(rb, k),
        decreases size - i,
    {
        let ghost (a0, b0) = (a@, b@);
        a.push(if i < lhs.len() {
            lhs[i]
        } else {
            GF::<MOD>::new(0)
        });
        b.push(if i < rhs.len() {
            rhs[i]
        } else {
            GF::<MOD>::new(0)
        });
        proof {
            div_mod::lemma_small_mod(0, MOD as nat);
            assert forall|k: int| 0 <= k < i + 1 implies #[trigger] residues(a@)[k]
                == transform::coefficient(ra, k) by {
                if k < i {
                    assert(a@[k] == a0[k]);
                    assert(residues(a0)[k] == transform::coefficient(ra, k));
                }
            }
            assert forall|k: int| 0 <= k < i + 1 implies #[trigger] residues(b@)[k]
                == transform::coefficient(rb, k) by {
                if k < i {
                    assert(b@[k] == b0[k]);
                    assert(residues(b0)[k] == transform::coefficient(rb, k));
                }
            }
        }
        i += 1;
    }
    let ghost (fw, iv) = (root_values(roots.forward), root_values(roots.inverse));
    let ghost (padded_a, padded_b) = (residues(a@), residues(b@));
    let ghost exact = prime::is_prime_number(MOD as nat) && is_root_pair(*roots, MOD) && lhs@.len()
        + rhs@.len() <= power2::pow2(prime::valuation((MOD - 1) as nat)) + 1;
    proof {
        if exact {
            // the transform has no more levels than the roots are for
            let v = prime::valuation((MOD - 1) as nat);
            let d = layout::depth(size as nat);
            if d > v {
                layout::lemma_pow2_double(v);
                if d > v + 1 {
                    power2::lemma_pow2_strictly_increases(v + 1, d);
                }
            }
            transform::lemma_fewer_levels(fw, iv, p, v, d);
        }
    }
    ntt_with(a.as_mut_slice(), &roots.forward);
    ntt_with(b.as_mut_slice(), &roots.forward);
    let mut c: Vec<GF<MOD>> = Vec::with_capacity(size);
    let mut i: usize = 0;
    while i < size
        invariant
            i <= size,
            a@.len() == size,
            b@.len() == size,
            c@.len() == i,
            forall|k: int| 0 <= k < i ==> (#[trigger] c@[k])@ == (a@[k]@ * b@[k]@) % (MOD as nat),
        decreases size - i,
    {
        c.push(a[i] * b[i]);
        i += 1;
    }
    let ghost fc = residues(c@);
    proof {
        if exact {
            assert forall|k: int| 0 <= k < size implies #[trigger] fc[k] == (transform::transform(
                padded_a,
                fw,
                p,
            )[k] * transform::transform(padded_b, fw, p)[k]) % p by {
                let (x, y) = (a@[k]@ as int, b@[k]@ as int);
                assert(residues(a@)[k] == x % p);
                assert(residues(b@)[k] == y % p);
                div_mod::lemma_mul_mod_noop_general(x, y, p);
                div_mod::lemma_mod_twice(x * y, p);
            }
            lemma_pointwise(ra, rb, padded_a, padded_b, fc, fw, iv, p);
        }
    }
    intt_with(c.as_mut_slice(), &roots.inverse);
    proof {
        if exact {
            assert(is_source(reduced_product(ra, rb, p, size as nat), fw, iv, p, fc));
        }
    }
    let ghost whole = c@;
    c.truncate(len);
    proof {
        if exact {
            assert forall|k: int| 0 <= k < len implies values(c@)[k] == transform::convolution(
                ra,
                rb,
                p,
            )[k] by {
                assert(c@[k] == whole[k]);
                assert(values(whole)[k] == reduced_product(ra, rb, p, size as nat)[k]);
            }
            assert(values(c@) =~= transform::convolution(ra, rb, p));
        }
    }
    c
}

/// Computes the convolution of two sequences through the NTT.
///
/// ## Definition
///
/// The convolution of `a` and `b` is the sequence `c` of
/// `a.len() + b.len() - 1` elements with `ck = sum_i ai * b(k-i) mod MOD`;
/// the empty sequence, where `a` or `b` is empty.
///
/// ## Requirements
///
/// For the result to be the convolution, `MOD` must be a prime of the
/// form `c * 2^k + 1` where `2^k >= lhs.len() + rhs.len() - 1`.
///
/// ## Complexity
///
/// `O(n log n)` where `n` is the smallest power of two
/// `>= lhs.len() + rhs.len() - 1`.
pub fn ntt_conv<const MOD: u32>(lhs: &[GF<MOD>], rhs: &[GF<MOD>]) -> (product: Vec<GF<MOD>>)
    requires
        lhs@.len() == 0 || rhs@.len() == 0 || (is_ntt_modulus(MOD) && lhs@.len() + rhs@.len()
            <= 0x8000_0000),
    ensures
        product@.len() == if lhs@.len() == 0 || rhs@.len() == 0 {
            0
        } else {
            lhs@.len() + rhs@.len() - 1
        },
        prime::is_prime_number(MOD as nat) && lhs@.len() + rhs@.len() <= power2::pow2(
            prime::valuation((MOD - 1) as nat),
        ) + 1 ==> values(product@) == transform::convolution(
            residues(lhs@),
            residues(rhs@),
            MOD as int,
        ),
{
    if lhs.len() == 0 || rhs.len() == 0 {
        let product: Vec<GF<MOD>> = Vec::new();
        proof {
            assert(values(product@) =~= transform::convolution(
                residues(lhs@),
                residues(rhs@),
                MOD as int,
            ));
        }
        return product;
    }
    let roots = get_ntt_roots(MOD);
    ntt_conv_with(lhs, rhs, &roots)
}

} // verus!
