//! Fixed-point natural logarithm on small integer ratios.
//!
//! Inverse document frequency is `ln(total / df)` with `1 <= df <= total`.
//! The value is held as a fixed-point integer scaled by [`SCALE`]: first the
//! base-2 logarithm of `n / d` is computed bit by bit (integer part by
//! doubling the denominator, twelve fractional bits by repeated squaring of a
//! 32-bit-guarded mantissa), then it is converted to a natural logarithm with
//! the scaled constant [`LN2_SCALED`].
//!
//! The result is deterministic integer arithmetic throughout:
//! [`ln_fixed_spec`] states the exact value, and [`ln_fixed`] computes it.

use vstd::prelude::*;

verus! {

use vstd::arithmetic::power2::pow2;
use vstd::arithmetic::power2::lemma_pow2_unfold;
use vstd::arithmetic::power2::lemma_pow2_pos;
use vstd::arithmetic::power2::lemma_pow2_strictly_increases;
use vstd::arithmetic::div_mod::lemma_div_by_multiple;
use vstd::arithmetic::div_mod::lemma_div_is_ordered;
use vstd::arithmetic::div_mod::lemma_div_pos_is_pos;
use vstd::arithmetic::mul::lemma_mul_inequality;

/// Fixed-point scale of every IDF value: weights carry 12 fractional bits.
pub const SCALE: u64 = 4096;

/// `ln(2) * SCALE`, rounded to the nearest integer.
pub const LN2_SCALED: u64 = 2839;

/// Largest catalog size the logarithm is defined for; `ln_fixed(n, d)` asks
/// for `n <= MAX_LN_ARG`, and every IDF argument obeys it.
pub const MAX_LN_ARG: u64 = 4096;

/// Strict upper bound on every value `ln_fixed` can return:
/// `13 * LN2_SCALED`.
pub const IDF_BOUND: u64 = 36907;

/// The mantissa guard: fractional bits are computed on a `[2^32, 2^33)`
/// window.
pub const GUARD: u64 = 0x1_0000_0000;

/// Number of fractional base-2 bits computed.
pub const FRAC_BITS: u64 = 12;

/// Largest `k` with `d * 2^k <= n`, for `1 <= d <= n`.
pub open spec fn ilog2(n: int, d: int) -> nat
    decreases n - d when 1 <= d <= n
{
    if 2 * d <= n {
        1 + ilog2(n, 2 * d)
    } else {
        0
    }
}

/// One squaring step on the mantissa `y` in `[2^32, 2^33)`: returns the new
/// mantissa and the base-2 bit it produced.
pub open spec fn frac_step(y: int) -> (int, int) {
    let y2 = (y * y) / (GUARD as int);
    if y2 >= 2 * (GUARD as int) {
        (y2 / 2, 1)
    } else {
        (y2, 0)
    }
}

/// The mantissa and the accumulated fractional bits after `i` squaring
/// steps from `y0`.
pub open spec fn frac_state(y0: int, i: nat) -> (int, int)
    decreases i
{
    if i == 0 {
        (y0, 0)
    } else {
        let (y, f) = frac_state(y0, (i - 1) as nat);
        let (y2, b) = frac_step(y);
        (y2, 2 * f + b)
    }
}

/// The exact fixed-point value of `ln(n / d) * SCALE` as this library
/// defines it: `k` integer bits and [`FRAC_BITS`] fractional bits of the
/// base-2 logarithm, scaled by [`LN2_SCALED`].
pub open spec fn ln_fixed_spec(n: int, d: int) -> int {
    let k = ilog2(n, d);
    let y0 = (n * (GUARD as int)) / (d * (pow2(k) as int));
    let f = frac_state(y0, FRAC_BITS as nat).1;
    ((k * (SCALE as int) + f) * (LN2_SCALED as int)) / (SCALE as int)
}

/// Computes [`ln_fixed_spec`] exactly.
pub fn ln_fixed(n: u64, d: u64) -> (r: u64)
    requires
        1 <= d <= n,
        n <= MAX_LN_ARG,
    ensures
        r == ln_fixed_spec(n as int, d as int),
        r < IDF_BOUND,
{
    // Integer part of log2(n / d): double the denominator while it fits.
    let mut k: u64 = 0;
    let mut dd: u64 = d;
    proof {
        vstd::arithmetic::power2::lemma2_to64();
        assert(dd == d * pow2(0));
    }
    while 2 * dd <= n
        invariant
            1 <= d <= dd <= n,
            n <= MAX_LN_ARG,
            dd == d * pow2(k as nat),
            ilog2(n as int, d as int) == k + ilog2(n as int, dd as int),
            k <= 12,
        decreases n - dd,
    {
        proof {
            lemma_pow2_unfold((k + 1) as nat);
            assert(2 * dd == d * pow2((k + 1) as nat)) by (nonlinear_arith)
                requires
                    dd == d * pow2(k as nat),
                    pow2((k + 1) as nat) == 2 * pow2(k as nat),
            ;
            if k >= 12 {
                lemma_pow2_strictly_increases(12, (k + 1) as nat);
                vstd::arithmetic::power2::lemma2_to64();
                assert(pow2((k + 1) as nat) > 4096);
                assert(d * pow2((k + 1) as nat) >= pow2((k + 1) as nat)) by (nonlinear_arith)
                    requires
                        d >= 1,
                ;
                assert(false);
            }
        }
        dd = 2 * dd;
        k = k + 1;
    }
    proof {
        assert(ilog2(n as int, dd as int) == 0);
        lemma_pow2_pos(k as nat);
    }
    // Mantissa y0 = n * 2^32 / dd, in [2^32, 2^33).
    let y0: u64 = (n * GUARD) / dd;
    proof {
        lemma_div_by_multiple(GUARD as int, dd as int);
        assert(dd * (GUARD as int) <= n * (GUARD as int)) by (nonlinear_arith)
            requires
                dd <= n,
        ;
        lemma_div_is_ordered(
            (dd as int) * (GUARD as int),
            (n as int) * (GUARD as int),
            dd as int,
        );
        assert(((dd as int) * (GUARD as int)) / (dd as int) == GUARD as int);
        assert((n as int) * (GUARD as int) < (dd as int) * (2 * (GUARD as int)))
            by (nonlinear_arith)
            requires
                n < 2 * dd,
        ;
        vstd::arithmetic::div_mod::lemma_multiply_divide_lt(
            (n as int) * (GUARD as int),
            dd as int,
            2 * (GUARD as int),
        );
    }
    let ghost y0g: int = y0 as int;
    assert(GUARD <= y0 && y0 < 2 * GUARD);
    // Twelve fractional bits by repeated squaring.
    let mut y: u64 = y0;
    let mut f: u64 = 0;
    let mut i: u64 = 0;
    while i < FRAC_BITS
        invariant
            i <= FRAC_BITS,
            (y as int, f as int) == frac_state(y0g, i as nat),
            GUARD <= y < 2 * GUARD,
            f < pow2(i as nat),
            f < 4096,
        decreases FRAC_BITS - i,
    {
        proof {
            assert((y as int) * (y as int) >= (GUARD as int) * (GUARD as int))
                by (nonlinear_arith)
                requires
                    y >= GUARD,
            ;
            assert((y as int) * (y as int) < (GUARD as int) * (4 * (GUARD as int)))
                by (nonlinear_arith)
                requires
                    y < 2 * GUARD,
            ;
        }
        let yw: u128 = (y as u128) * (y as u128);
        proof {
            lemma_div_is_ordered(
                (GUARD as int) * (GUARD as int),
                (y as int) * (y as int),
                GUARD as int,
            );
            lemma_div_by_multiple(GUARD as int, GUARD as int);
            vstd::arithmetic::div_mod::lemma_multiply_divide_lt(
                (y as int) * (y as int),
                GUARD as int,
                4 * (GUARD as int),
            );
        }
        let y2: u64 = (yw / (GUARD as u128)) as u64;
        proof {
            lemma_pow2_unfold((i + 1) as nat);
            vstd::arithmetic::power2::lemma2_to64();
            if i + 1 < 12 {
                lemma_pow2_strictly_increases((i + 1) as nat, 12);
            }
        }
        if y2 >= 2 * GUARD {
            y = y2 / 2;
            f = 2 * f + 1;
        } else {
            y = y2;
            f = 2 * f;
        }
        i = i + 1;
    }
    proof {
        vstd::arithmetic::power2::lemma2_to64();
        assert(f < 4096);
    }
    // Convert base-2 to natural: multiply by ln(2) at the same scale.
    let lg: u64 = k * SCALE + f;
    let r: u64 = (lg * LN2_SCALED) / SCALE;
    proof {
        assert(lg <= 53247);
        lemma_mul_inequality(lg as int, 53247, LN2_SCALED as int);
        lemma_div_is_ordered((lg as int) * (LN2_SCALED as int), 53247 * 2839int, SCALE as int);
        assert(53247 * 2839 / 4096 == 36906) by (nonlinear_arith);
        lemma_div_pos_is_pos((lg as int) * (LN2_SCALED as int), SCALE as int);
    }
    r
}

/// A term present in every document has IDF zero: `ln(n / n) == 0`.
pub proof fn lemma_ln_fixed_self(n: int)
    requires
        1 <= n,
    ensures
        ln_fixed_spec(n, n) == 0,
{
    assert(ilog2(n, n) == 0);
    vstd::arithmetic::power2::lemma2_to64();
    assert(n * pow2(0) == n) by (nonlinear_arith)
        requires
            pow2(0) == 1,
    ;
    lemma_div_by_multiple(GUARD as int, n);
    assert((n * (GUARD as int)) / n == GUARD as int) by {
        assert(n * (GUARD as int) == (GUARD as int) * n) by (nonlinear_arith);
    }
    lemma_frac_state_fixpoint(FRAC_BITS as nat);
    assert((0 * (SCALE as int) + 0) * (LN2_SCALED as int) == 0) by (nonlinear_arith);
    assert(ln_fixed_spec(n, n) == 0int / (SCALE as int));
}

/// The mantissa `2^32` reproduces itself under squaring, producing only
/// zero bits.
proof fn lemma_frac_state_fixpoint(i: nat)
    ensures
        frac_state(GUARD as int, i) == (GUARD as int, 0int),
    decreases i,
{
    if i > 0 {
        lemma_frac_state_fixpoint((i - 1) as nat);
        assert((GUARD as int) * (GUARD as int) == 0x1_0000_0000_0000_0000) by (nonlinear_arith);
        assert(0x1_0000_0000_0000_0000int / (GUARD as int) == GUARD as int) by (nonlinear_arith);
    }
}

} // verus!
