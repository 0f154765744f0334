//! Interface loads as ranks: integers in the order of the floating-point rates that
//! they stand for.

use vstd::arithmetic::power2::{
    lemma_pow2_pos, lemma_pow2_strictly_increases, lemma_pow2_unfold, pow2,
};
use vstd::prelude::*;

verus! {

/// The bit pattern of positive infinity in IEEE 754 binary64.
pub const INFINITY_BITS: u64 = 0x7ff0_0000_0000_0000;

/// Whether the sign bit of a binary64 bit pattern is set.
pub open spec fn is_negative(bits: u64) -> bool {
    bits >= 0x8000_0000_0000_0000
}

/// A binary64 bit pattern without its sign bit.
pub open spec fn magnitude_bits(bits: u64) -> nat {
    (bits % 0x8000_0000_0000_0000) as nat
}

/// The number that a binary64 bit pattern without sign stands for, in units of the
/// smallest positive one (two to the power of -1074); for the pattern of infinity, a
/// number above all finite ones.
pub open spec fn magnitude_value(m: nat) -> nat {
    let exponent = m / 0x10_0000_0000_0000;
    let fraction = m % 0x10_0000_0000_0000;
    if exponent == 0 {
        fraction
    } else {
        (0x10_0000_0000_0000 + fraction) * pow2((exponent - 1) as nat)
    }
}

/// The number that a binary64 bit pattern stands for, in the same units.
pub open spec fn float_value(bits: u64) -> int {
    if is_negative(bits) {
        -(magnitude_value(magnitude_bits(bits)) as int)
    } else {
        magnitude_value(magnitude_bits(bits)) as int
    }
}

/// Whether the number that a bit pattern stands for is below positive infinity.
pub open spec fn below_infinity(bits: u64) -> bool {
    magnitude_bits(bits) < INFINITY_BITS || (magnitude_bits(bits) == INFINITY_BITS && is_negative(
        bits,
    ))
}

/// The rank of the rate with the given bit pattern.
pub open spec fn rank_of(bits: u64) -> Option<i64> {
    if !below_infinity(bits) {
        None
    } else if is_negative(bits) {
        Some((-magnitude_bits(bits)) as i64)
    } else {
        Some(magnitude_bits(bits) as i64)
    }
}

/// The rank of the rate with the given binary64 bit pattern: `None` for positive
/// infinity and what is not a number, zero for both zeros.
pub fn load_rank(bits: u64) -> (r: Option<i64>)
    ensures
        r == rank_of(bits),
{
    let m: u64 = bits % 0x8000_0000_0000_0000;
    let negative: bool = bits >= 0x8000_0000_0000_0000;
    if m > INFINITY_BITS || (m == INFINITY_BITS && !negative) {
        None
    } else if negative {
        Some(-(m as i64))
    } else {
        Some(m as i64)
    }
}

proof fn lemma_magnitude_monotone(m: nat, n: nat)
    requires
        m < n,
    ensures
        magnitude_value(m) < magnitude_value(n),
{
    let unit: nat = 0x10_0000_0000_0000;
    let (e, f) = (m / unit, m % unit);
    let (g, h) = (n / unit, n % unit);
    assert(e <= g);
    if e == g {
        if e > 0 {
            let p = pow2((e - 1) as nat);
            lemma_pow2_pos((e - 1) as nat);
            assert((unit + f) * p < (unit + h) * p) by (nonlinear_arith)
                requires
                    f < h,
                    p > 0,
            ;
        }
    } else {
        let q = pow2((g - 1) as nat);
        lemma_pow2_pos((g - 1) as nat);
        assert(unit * q <= (unit + h) * q) by (nonlinear_arith)
            requires
                q > 0,
        ;
        if e == 0 {
            assert(unit <= unit * q) by (nonlinear_arith)
                requires
                    q >= 1,
            ;
        } else {
            let p = pow2((e - 1) as nat);
            lemma_pow2_pos((e - 1) as nat);
            lemma_pow2_unfold(e);
            assert(pow2(e) == 2 * p);
            if e < g - 1 {
                lemma_pow2_strictly_increases(e, (g - 1) as nat);
            }
            assert(pow2(e) <= q);
            assert((unit + f) * p < unit * q) by (nonlinear_arith)
                requires
                    f < unit,
                    p > 0,
                    2 * p <= q,
            ;
        }
    }
}

/// Ranks are in the order of the rates that they stand for, and equal exactly when
/// those are.
pub proof fn law_ranks_order_loads(a: u64, b: u64)
    requires
        below_infinity(a),
        below_infinity(b),
    ensures
        rank_of(a) is Some,
        rank_of(b) is Some,
        rank_of(a)->0 < rank_of(b)->0 <==> float_value(a) < float_value(b),
        rank_of(a)->0 == rank_of(b)->0 <==> float_value(a) == float_value(b),
{
    let m = magnitude_bits(a);
    let n = magnitude_bits(b);
    if m < n {
        lemma_magnitude_monotone(m, n);
    } else if n < m {
        lemma_magnitude_monotone(n, m);
    }
    if m > 0 {
        lemma_magnitude_monotone(0, m);
    }
    if n > 0 {
        lemma_magnitude_monotone(0, n);
    }
}

/// A rate has no rank exactly when it is not below positive infinity: when it is positive
/// infinity, or no number, which has all exponent bits and some fraction bit set.
pub proof fn law_what_has_no_rank(bits: u64)
    ensures
        rank_of(bits) is None <==> bits == 0x7ff0_0000_0000_0000 || (bits
            % 0x8000_0000_0000_0000 > 0x7ff0_0000_0000_0000),
        rank_of(0) == Some(0i64),
        rank_of(0x8000_0000_0000_0000) == Some(0i64),
{
}

/// The rank of a rate that is not negative is its bit pattern, and a negative rate has the
/// opposite of its rank without the sign.
pub proof fn law_rank(bits: u64)
    ensures
        bits < 0x7ff0_0000_0000_0000 ==> rank_of(bits) == Some(bits as i64),
        0x8000_0000_0000_0000 <= bits <= 0xfff0_0000_0000_0000 ==> (rank_of(bits) matches Some(r)
            && r == -(bits - 0x8000_0000_0000_0000)),
{
}

} // verus!
