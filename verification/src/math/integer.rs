//! Integer utilities
//!
//! # Available functions
//!
//! - [`isqrt`]: the integer square root of a number.

use vstd::arithmetic::div_mod;
use vstd::arithmetic::power2;
use vstd::bits;
use vstd::prelude::*;
use vstd::std_specs::bits as std_bits;

verus! {

/// `r` is the integer square root of `n`: the largest `r` with
/// `r * r <= n`.
pub open spec fn is_isqrt(r: nat, n: nat) -> bool {
    r * r <= n < (r + 1) * (r + 1)
}

/// One step of Newton's method from an `x` that is not below the square
/// root of `n` gives a `y` that is not below it either; and where the step
/// does not go down, `x` is the integer square root.
proof fn lemma_newton_step(n: int, x: int)
    requires
        n >= 1,
        x >= 1,
        n < (x + 1) * (x + 1),
    ensures
        n / x <= x + 2,
        (x + n / x) / 2 >= 1,
        n < ((x + n / x) / 2 + 1) * ((x + n / x) / 2 + 1),
        (x + n / x) / 2 >= x ==> x * x <= n,
{
    let q = n / x;
    let y = (x + q) / 2;
    div_mod::lemma_fundamental_div_mod(n, x);
    div_mod::lemma_mod_bound(n, x);
    assert(x * q <= n < x * (q + 1)) by (nonlinear_arith)
        requires
            n == x * q + n % x,
            0 <= n % x < x,
    ;
    assert(q <= x + 2) by (nonlinear_arith)
        requires
            x * q <= n,
            n < (x + 1) * (x + 1),
            x >= 1,
    ;
    assert(q >= 0) by (nonlinear_arith)
        requires
            n < x * (q + 1),
            n >= 1,
            x >= 1,
    ;
    // (x + q + 1)^2 >= 4 * x * (q + 1) > 4 * n, and 2 * (y + 1) >= x + q + 1
    assert(n < (y + 1) * (y + 1)) by (nonlinear_arith)
        requires
            2 * (y + 1) >= x + q + 1,
            n < x * (q + 1),
            x >= 1,
            q >= 0,
    {
        assert((x + q + 1) * (x + q + 1) >= 4 * (x * (q + 1))) by (nonlinear_arith)
            requires
                (x - (q + 1)) * (x - (q + 1)) >= 0,
        ;
        assert(4 * ((y + 1) * (y + 1)) >= (x + q + 1) * (x + q + 1)) by (nonlinear_arith)
            requires
                2 * (y + 1) >= x + q + 1,
                x + q + 1 >= 0,
        ;
    }
    if y >= x {
        assert(x * x <= n) by (nonlinear_arith)
            requires
                q >= x,
                x * q <= n,
                x >= 1,
        ;
    }
    if y < 1 {
        assert(false) by (nonlinear_arith)
            requires
                y <= 0,
                n < (y + 1) * (y + 1),
                n >= 1,
                y >= 0,
        ;
    }
}

/// Returns the integer square root of `n`, by Newton's method on integers.
///
/// ## Complexity
///
/// `O(log n)`
pub fn isqrt(n: u64) -> (r: u64)
    ensures
        is_isqrt(r as nat, n as nat),
{
    if n == 0 {
        assert(is_isqrt(0, 0)) by (nonlinear_arith);
        return 0;
    }
    let zeros = n.leading_zeros();
    proof {
        std_bits::axiom_u64_leading_zeros(n);
    }
    let shift = (63 - zeros) / 2 + 1;
    let mut x: u64 = 1 << shift;
    proof {
        // n < 2^(64 - zeros) <= 2^(2 * shift) == x * x
        let top = (64 - zeros) as u64;
        power2::lemma2_to64();
        power2::lemma2_to64_rest();
        assert(n < power2::pow2(top as nat)) by {
            if top < 64 {
                bits::lemma_u64_shr_is_div(n, top);
                power2::lemma_pow2_pos(top as nat);
                div_mod::lemma_fundamental_div_mod(n as int, power2::pow2(top as nat) as int);
                div_mod::lemma_mod_bound(n as int, power2::pow2(top as nat) as int);
            }
        }
        bits::lemma_u64_pow2_no_overflow(shift as nat);
        if shift < 32 {
            power2::lemma_pow2_strictly_increases(shift as nat, 32);
        }
        bits::lemma_u64_shl_is_mul(1, shift as u64);
        power2::lemma_pow2_adds(shift as nat, shift as nat);
        if top < 2 * shift {
            power2::lemma_pow2_strictly_increases(top as nat, (2 * shift) as nat);
        }
        assert(x * x < (x + 1) * (x + 1)) by (nonlinear_arith)
            requires
                x >= 0,
        ;
    }
    loop
        invariant
            n >= 1,
            1 <= x <= 0x1_0000_0000,
            n < (x + 1) * (x + 1),
        decreases x,
    {
        proof {
            lemma_newton_step(n as int, x as int);
        }
        let y = (x + n / x) / 2;
        if y >= x {
            return x;
        }
        x = y
    }
}

} // verus!
