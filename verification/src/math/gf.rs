//! Galois Field
//!
//! The integers modulo `MOD`. For a prime `MOD` they form the finite field
//! `Z/MOD Z`; the arithmetic below is that of the residues for any modulus.

use vstd::arithmetic::div_mod;
use vstd::arithmetic::power;
use vstd::prelude::*;

use crate::math::fermat;
use crate::math::modint;
use crate::math::prime;

verus! {

/// An element of `Z/MOD Z`.
///
/// Its view is its representative in `0 .. MOD`.
///
/// # Requirements
///
/// `MOD` must be at least `1`, at least `2` for [`GF::one`], [`GF::pow`]
/// and [`GF::inv`], and prime for the elements to form a field: for
/// [`GF::inv`] to give inverses, and [`GF::pow`] the powers for every
/// exponent.
#[derive(Clone, Copy, PartialEq, Eq, Hash, Debug)]
pub struct GF<const MOD: u32> {
    /// The representative of the element, in `0 .. MOD`.
    value: u32,
}

impl<const MOD: u32> View for GF<MOD> {
    type V = nat;

    closed spec fn view(&self) -> nat {
        self.value as nat
    }
}

/// The exponent that [`GF::pow`] raises to: `n` itself below `m - 1`, else
/// `n` reduced modulo `m - 1`, as Fermat's little theorem allows for a
/// prime `m` and a base that `m` does not divide.
pub open spec fn reduced_exponent(n: nat, m: nat) -> nat {
    if n >= m - 1 {
        (n as int % (m - 1)) as nat
    } else {
        n
    }
}

/// The power `a^n` in `Z/m Z`, as [`GF::pow`] computes it: for `a = 0`
/// the power itself, which is `1` for `n = 0` and else `0`; for another
/// `a` the power with the exponent of [`reduced_exponent`].
pub open spec fn power_mod(a: nat, n: nat, m: nat) -> nat {
    if a == 0 {
        (power::pow(0, n) % (m as int)) as nat
    } else {
        (power::pow(a as int, reduced_exponent(n, m)) % (m as int)) as nat
    }
}

/// The element that [`GF::inv`] returns for `a`: `a^(m - 2)` in `Z/m Z`.
pub open spec fn inverse_mod(a: nat, m: nat) -> nat {
    power_mod(a, (m - 2) as nat, m)
}

/// For a prime modulus `m`, and for `a = 0` or an `a` that `m` does not
/// divide, [`power_mod`] is the power `a^n` modulo `m`: the reduction of
/// the exponent changes nothing.
pub proof fn lemma_power_mod(a: nat, n: nat, m: nat)
    requires
        prime::is_prime_number(m),
        a == 0 || a % m != 0,
    ensures
        power_mod(a, n, m) == power::pow(a as int, n) % (m as int),
{
    if a == 0 {
        div_mod::lemma_mod_bound(power::pow(0, n), m as int);
    } else {
        fermat::lemma_reduce_exponent(m, a, n);
        if n < m - 1 {
            div_mod::lemma_small_mod(n, (m - 1) as nat);
        }
        div_mod::lemma_mod_bound(power::pow(a as int, reduced_exponent(n, m)), m as int);
    }
}

/// For a prime modulus `m` that does not divide `a`, [`inverse_mod`] is
/// the inverse of `a` modulo `m`.
pub proof fn lemma_inverse_mod(a: nat, m: nat)
    requires
        prime::is_prime_number(m),
        a % m != 0,
    ensures
        (a * inverse_mod(a, m)) % m == 1,
        (inverse_mod(a, m) * a) % m == 1,
        inverse_mod(a, m) < m,
{
    let e = (m - 2) as nat;
    let x = power::pow(a as int, e);
    fermat::lemma_fermat(m, a);
    power::lemma_pow1(a as int);
    power::lemma_pow_adds(a as int, 1, e);
    div_mod::lemma_mod_bound(x, m as int);
    div_mod::lemma_mul_mod_noop_general(a as int, x, m as int);
    assert(a * inverse_mod(a, m) == inverse_mod(a, m) * a) by (nonlinear_arith);
}

impl<const MOD: u32> GF<MOD> {
    #[verifier::type_invariant]
    spec fn is_reduced(self) -> bool {
        self.value < MOD
    }

    /// Returns the modulus.
    #[inline]
    pub fn modulus() -> (m: u32)
        ensures
            m == MOD,
    {
        MOD
    }

    /// Returns zero (additive identity).
    #[inline]
    pub fn zero() -> (x: Self)
        requires
            MOD >= 1,
        ensures
            x@ == 0,
    {
        Self { value: 0 }
    }

    /// Returns one (multiplicative identity).
    #[inline]
    pub fn one() -> (x: Self)
        requires
            MOD >= 2,
        ensures
            x@ == 1,
    {
        Self { value: 1 }
    }

    /// Creates the element of `Z/MOD Z` that `value` represents.
    #[inline]
    pub fn new(value: u32) -> (x: Self)
        requires
            MOD >= 1,
        ensures
            x@ == value % MOD,
    {
        Self { value: value % MOD }
    }

    /// Creates the element of `Z/MOD Z` that the signed `value` represents.
    #[inline]
    pub fn from_i64(value: i64) -> (x: Self)
        requires
            MOD >= 1,
        ensures
            x@ == (value as int) % (MOD as int),
    {
        match value.checked_rem_euclid(MOD as i64) {
            Some(r) => {
                proof {
                    div_mod::lemma_mod_bound(value as int, MOD as int);
                    div_mod::lemma_small_mod(r as nat, MOD as nat);
                }
                Self::new(r as u32)
            },
            None => Self::new(0),
        }
    }

    /// Returns the representative of the element, in `0 .. MOD`.
    #[inline]
    pub fn value(&self) -> (v: u32)
        ensures
            v == self@,
            v < MOD,
    {
        proof {
            use_type_invariant(self);
        }
        self.value
    }

    /// Returns `self^n`: for a prime `MOD`, the power `n` of `self` in
    /// `Z/MOD Z`, which for `self = 0` is `1` where `n = 0` and else `0`.
    ///
    /// For another `self` than `0`, the exponent is reduced modulo
    /// `MOD - 1` where it is not below `MOD - 1`.
    ///
    /// ## Complexity
    ///
    /// `O(log max(n, MOD))`
    #[inline]
    pub fn pow(&self, n: u32) -> (x: Self)
        requires
            MOD >= 2,
        ensures
            x@ == power_mod(self@, n as nat, MOD as nat),
            prime::is_prime_number(MOD as nat) ==> x@ == power::pow(self@ as int, n as nat) % (
            MOD as int),
    {
        proof {
            use_type_invariant(self);
            if prime::is_prime_number(MOD as nat) {
                div_mod::lemma_small_mod(self@, MOD as nat);
                lemma_power_mod(self@, n as nat, MOD as nat);
            }
        }
        if self.value == 0 {
            proof {
                div_mod::lemma_small_mod(1, MOD as nat);
                div_mod::lemma_small_mod(0, MOD as nat);
                if n == 0 {
                    power::lemma_pow0(0);
                } else {
                    power::lemma0_pow(n as nat);
                }
            }
            return if n == 0 {
                Self::new(1)
            } else {
                Self::new(0)
            };
        }
        let mut n = n;
        if n >= MOD - 1 {
            n %= MOD - 1;
        }
        let ghost e = n as nat;
        let ghost a = self@ as int;
        let ghost m = MOD as int;
        let mut res = Self::new(1);
        let mut base = *self;
        proof {
            power::lemma_pow1(a);
            div_mod::lemma_small_mod(1, MOD as nat);
            assert(1 * power::pow(a, e) == power::pow(a, e)) by (nonlinear_arith);
        }
        while n > 0
            invariant
                MOD >= 2,
                m == MOD,
                (res@ * power::pow(base@ as int, n as nat)) % m == power::pow(a, e) % m,
            decreases n,
        {
            let ghost (r0, b0, n0) = (res@ as int, base@ as int, n as nat);
            proof {
                modint::lemma_square_and_multiply(r0, b0, n0, m);
            }
            assert(n & 1 == n % 2) by (bit_vector);
            if n & 1 == 1 {
                res = res * base;
            }
            base = base * base;
            let ghost before = n;
            n >>= 1;
            assert(n == before / 2) by (bit_vector)
                requires
                    n == before >> 1,
            ;
        }
        proof {
            use_type_invariant(res);
            power::lemma_pow0(base@ as int);
            div_mod::lemma_small_mod(res@, MOD as nat);
        }
        res
    }

    /// Returns `self^(MOD - 2)`, which for a prime `MOD` is the inverse of
    /// `self`.
    ///
    /// ## Complexity
    ///
    /// `O(log MOD)`
    #[inline]
    pub fn inv(&self) -> (x: Self)
        requires
            MOD >= 2,
            self@ != 0,
        ensures
            x@ == inverse_mod(self@, MOD as nat),
            prime::is_prime_number(MOD as nat) ==> (self@ * x@) % (MOD as nat) == 1,
    {
        proof {
            use_type_invariant(self);
            if prime::is_prime_number(MOD as nat) {
                div_mod::lemma_small_mod(self@, MOD as nat);
                lemma_inverse_mod(self@, MOD as nat);
            }
        }
        self.pow(MOD - 2)
    }
}

impl<const MOD: u32> core::ops::Neg for GF<MOD> {
    type Output = Self;

    /// Returns `-self`.
    fn neg(self) -> (x: Self)
        ensures
            x@ == (if self@ == 0 {
                0
            } else {
                MOD - self@
            }),
    {
        proof {
            use_type_invariant(self);
        }
        if self.value > 0 {
            Self { value: MOD - self.value }
        } else {
            self
        }
    }
}

impl<const MOD: u32> vstd::std_specs::ops::NegSpecImpl for GF<MOD> {
    open spec fn obeys_neg_spec() -> bool {
        true
    }

    open spec fn neg_req(self) -> bool {
        true
    }

    closed spec fn neg_spec(self) -> Self {
        if self.value > 0 {
            GF { value: (MOD - self.value) as u32 }
        } else {
            self
        }
    }
}

impl<const MOD: u32> core::ops::Add<GF<MOD>> for GF<MOD> {
    type Output = GF<MOD>;

    /// Returns `self + rhs`.
    fn add(self, rhs: GF<MOD>) -> (x: GF<MOD>)
        ensures
            x@ == (self@ + rhs@) % (MOD as nat),
    {
        proof {
            use_type_invariant(self);
            use_type_invariant(rhs);
            if self.value + rhs.value >= MOD {
                div_mod::lemma_fundamental_div_mod_converse(
                    self.value + rhs.value,
                    MOD as int,
                    1,
                    self.value + rhs.value - MOD,
                );
            } else {
                div_mod::lemma_small_mod((self.value + rhs.value) as nat, MOD as nat);
            }
        }
        let mut value = self.value + rhs.value;
        if value >= MOD {
            value -= MOD;
        }
        Self { value }
    }
}

impl<const MOD: u32> vstd::std_specs::ops::AddSpecImpl<GF<MOD>> for GF<MOD> {
    open spec fn obeys_add_spec() -> bool {
        true
    }

    open spec fn add_req(self, rhs: GF<MOD>) -> bool {
        MOD <= 0x8000_0000
    }

    closed spec fn add_spec(self, rhs: GF<MOD>) -> GF<MOD> {
        GF {
            value: (if self.value + rhs.value >= MOD {
                self.value + rhs.value - MOD
            } else {
                self.value + rhs.value
            }) as u32,
        }
    }
}

impl<const MOD: u32> core::ops::Sub<GF<MOD>> for GF<MOD> {
    type Output = GF<MOD>;

    /// Returns `self - rhs`.
    fn sub(self, rhs: GF<MOD>) -> (x: GF<MOD>)
        ensures
            x@ == (self@ - rhs@) % (MOD as int),
    {
        proof {
            use_type_invariant(self);
            use_type_invariant(rhs);
            if self.value < rhs.value {
                div_mod::lemma_fundamental_div_mod_converse(
                    self.value - rhs.value,
                    MOD as int,
                    -1,
                    self.value - rhs.value + MOD,
                );
            } else {
                div_mod::lemma_small_mod((self.value - rhs.value) as nat, MOD as nat);
            }
        }
        let mut value = self.value;
        if value < rhs.value {
            value += MOD;
        }
        value -= rhs.value;
        Self { value }
    }
}

impl<const MOD: u32> vstd::std_specs::ops::SubSpecImpl<GF<MOD>> for GF<MOD> {
    open spec fn obeys_sub_spec() -> bool {
        true
    }

    open spec fn sub_req(self, rhs: GF<MOD>) -> bool {
        MOD <= 0x8000_0000
    }

    closed spec fn sub_spec(self, rhs: GF<MOD>) -> GF<MOD> {
        GF {
            value: (if self.value < rhs.value {
                self.value + MOD - rhs.value
            } else {
                self.value - rhs.value
            }) as u32,
        }
    }
}

impl<const MOD: u32> core::ops::Mul<GF<MOD>> for GF<MOD> {
    type Output = GF<MOD>;

    /// Returns `self * rhs`.
    fn mul(self, rhs: GF<MOD>) -> (x: GF<MOD>)
        ensures
            x@ == (self@ * rhs@) % (MOD as nat),
    {
        proof {
            use_type_invariant(self);
            use_type_invariant(rhs);
            assert(self.value * rhs.value <= u64::MAX) by (nonlinear_arith)
                requires
                    self.value <= u32::MAX,
                    rhs.value <= u32::MAX,
            ;
        }
        Self { value: ((self.value as u64 * rhs.value as u64) % MOD as u64) as u32 }
    }
}

impl<const MOD: u32> vstd::std_specs::ops::MulSpecImpl<GF<MOD>> for GF<MOD> {
    open spec fn obeys_mul_spec() -> bool {
        true
    }

    open spec fn mul_req(self, rhs: GF<MOD>) -> bool {
        true
    }

    closed spec fn mul_spec(self, rhs: GF<MOD>) -> GF<MOD> {
        GF { value: ((self.value as u64 * rhs.value as u64) as u64 % MOD as u64) as u32 }
    }
}

impl<const MOD: u32> core::ops::Div<GF<MOD>> for GF<MOD> {
    type Output = GF<MOD>;

    /// Returns `self * rhs^(-1)`: for a prime `MOD`, the element whose
    /// product with `rhs` is `self`.
    fn div(self, rhs: GF<MOD>) -> (x: GF<MOD>)
        ensures
            x@ == (self@ * inverse_mod(rhs@, MOD as nat)) % (MOD as nat),
            prime::is_prime_number(MOD as nat) ==> (x@ * rhs@) % (MOD as nat) == self@,
    {
        proof {
            use_type_invariant(self);
            use_type_invariant(rhs);
            if prime::is_prime_number(MOD as nat) {
                let m = MOD as int;
                let i = inverse_mod(rhs@, MOD as nat) as int;
                div_mod::lemma_small_mod(rhs@, MOD as nat);
                div_mod::lemma_small_mod(self@, MOD as nat);
                lemma_inverse_mod(rhs@, MOD as nat);
                // ((self * i) % m) * rhs = self * (i * rhs) = self, modulo m
                div_mod::lemma_mul_mod_noop_general(self@ * i, rhs@ as int, m);
                div_mod::lemma_mul_mod_noop_general(self@ as int, i * rhs@, m);
                assert((self@ * i) * rhs@ == self@ * (i * rhs@)) by (nonlinear_arith);
                assert(self@ * 1 == self@);
            }
        }
        self * rhs.inv()
    }
}

impl<const MOD: u32> vstd::std_specs::ops::DivSpecImpl<GF<MOD>> for GF<MOD> {
    open spec fn obeys_div_spec() -> bool {
        true
    }

    open spec fn div_req(self, rhs: GF<MOD>) -> bool {
        MOD >= 2 && rhs@ != 0
    }

    closed spec fn div_spec(self, rhs: GF<MOD>) -> GF<MOD> {
        GF {
            value: ((self.value as nat * inverse_mod(rhs.value as nat, MOD as nat)) % (MOD as nat)) as u32,
        }
    }
}

impl<const MOD: u32> core::ops::AddAssign<GF<MOD>> for GF<MOD> {
    /// Replaces `self` by `self + rhs`.
    fn add_assign(&mut self, rhs: GF<MOD>)
        ensures
            final(self)@ == (old(self)@ + rhs@) % (MOD as nat),
    {
        proof {
            use_type_invariant(&*self);
            use_type_invariant(rhs);
        }
        let mut value = self.value as u64 + rhs.value as u64;
        if value >= MOD as u64 {
            value -= MOD as u64;
        }
        proof {
            if self.value + rhs.value >= MOD {
                div_mod::lemma_mod_sub_multiples_vanish((self.value + rhs.value) as int, MOD as int);
            }
            div_mod::lemma_small_mod(value as nat, MOD as nat);
        }
        self.value = value as u32;
    }
}

impl<const MOD: u32> core::ops::SubAssign<GF<MOD>> for GF<MOD> {
    /// Replaces `self` by `self - rhs`.
    fn sub_assign(&mut self, rhs: GF<MOD>)
        ensures
            final(self)@ == (old(self)@ - rhs@) % (MOD as int),
    {
        proof {
            use_type_invariant(&*self);
            use_type_invariant(rhs);
        }
        let mut value = self.value as u64;
        if value < rhs.value as u64 {
            value += MOD as u64;
        }
        value -= rhs.value as u64;
        proof {
            if self.value < rhs.value {
                div_mod::lemma_mod_add_multiples_vanish(self.value - rhs.value, MOD as int);
            }
            div_mod::lemma_small_mod(value as nat, MOD as nat);
        }
        self.value = value as u32;
    }
}

impl<const MOD: u32> core::ops::MulAssign<GF<MOD>> for GF<MOD> {
    /// Replaces `self` by `self * rhs`.
    fn mul_assign(&mut self, rhs: GF<MOD>)
        ensures
            final(self)@ == (old(self)@ * rhs@) % (MOD as nat),
    {
        proof {
            use_type_invariant(&*self);
            use_type_invariant(rhs);
            assert(self.value * rhs.value <= u64::MAX) by (nonlinear_arith)
                requires
                    self.value <= u32::MAX,
                    rhs.value <= u32::MAX,
            ;
            div_mod::lemma_mod_bound(self.value * rhs.value, MOD as int);
        }
        self.value = ((self.value as u64 * rhs.value as u64) % MOD as u64) as u32;
    }
}

impl<const MOD: u32> core::ops::DivAssign<GF<MOD>> for GF<MOD> {
    /// Replaces `self` by `self / rhs`.
    fn div_assign(&mut self, rhs: GF<MOD>)
        requires
            MOD >= 2,
            rhs@ != 0,
        ensures
            final(self)@ == (old(self)@ * inverse_mod(rhs@, MOD as nat)) % (MOD as nat),
            prime::is_prime_number(MOD as nat) ==> old(self)@ == (final(self)@ * rhs@) % (
            MOD as nat),
    {
        let quotient = *self / rhs;
        *self = quotient;
    }
}

} // verus!
