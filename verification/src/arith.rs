//! Saturating 16-bit arithmetic and ceiling division.
//!
//! Partial scores are 8-bit quantized impacts multiplied by 8-bit query
//! weights, accumulated in 16 bits with saturation at 0xFFFF.

use vstd::prelude::*;

verus! {

/// Saturating addition on 16-bit scores: the mathematical sum, capped at
/// 0xFFFF.
pub open spec fn spec_sat_add(a: u16, b: u16) -> u16 {
    if a + b > 0xFFFF {
        0xFFFF as u16
    } else {
        (a + b) as u16
    }
}

/// Upper-bound additions saturate: the result never wraps, never drops
/// below either operand, and equals the exact sum whenever that sum fits.
pub proof fn lemma_sat_add_sound(a: u16, b: u16)
    ensures
        spec_sat_add(a, b) >= a,
        spec_sat_add(a, b) >= b,
        spec_sat_add(a, b) <= 0xFFFF,
        a + b <= 0xFFFF ==> spec_sat_add(a, b) == a + b,
        spec_sat_add(a, b) <= a + b,
{
}

/// Saturating addition is monotone in both operands.
pub proof fn lemma_sat_add_monotone(a1: u16, b1: u16, a2: u16, b2: u16)
    requires
        a1 <= a2,
        b1 <= b2,
    ensures
        spec_sat_add(a1, b1) <= spec_sat_add(a2, b2),
{
}

/// An 8-bit by 8-bit product fits in 16 bits.
pub fn mul8(a: u8, b: u8) -> (r: u16)
    ensures
        r == a * b,
{
    proof {
        assert(a * b <= 255 * 255) by (nonlinear_arith)
            requires
                a <= 255,
                b <= 255,
        ;
    }
    (a as u16) * (b as u16)
}

/// Executable saturating addition, equal to `spec_sat_add`.
pub fn sat_add(a: u16, b: u16) -> (r: u16)
    ensures
        r == spec_sat_add(a, b),
{
    let wide: u32 = a as u32 + b as u32;
    if wide > 0xFFFF {
        0xFFFF
    } else {
        wide as u16
    }
}

/// The number of blocks covering `n` items at `b` items per block:
/// `ceil(n / b)`.
pub open spec fn spec_div_ceil(n: nat, b: nat) -> nat
    recommends
        b > 0,
{
    ((n + b - 1) / (b as int)) as nat
}

/// Every item index `i < n` falls in a block index `i / b` below
/// `ceil(n / b)`.
pub proof fn lemma_block_index_in_range(i: nat, n: nat, b: nat)
    requires
        b > 0,
        i < n,
    ensures
        i / b < spec_div_ceil(n, b),
{
    let ii = i as int;
    let bi = b as int;
    let ni = n as int;
    assert(ii / bi < (ni + bi - 1) / bi) by (nonlinear_arith)
        requires
            bi > 0,
            0 <= ii < ni,
    ;
}

/// Executable ceiling division.
pub fn div_ceil(n: usize, b: usize) -> (r: usize)
    requires
        b > 0,
    ensures
        r == spec_div_ceil(n as nat, b as nat),
{
    if n == 0 {
        proof {
            let bi = b as int;
            assert((bi - 1) / bi == 0) by (nonlinear_arith)
                requires
                    bi > 0,
            ;
        }
        0
    } else {
        let q: usize = (n - 1) / b;
        proof {
            let ni = n as int;
            let bi = b as int;
            assert((ni + bi - 1) / bi == (ni - 1) / bi + 1) by (nonlinear_arith)
                requires
                    bi > 0,
                    ni > 0,
            ;
        }
        q + 1
    }
}

} // verus!
