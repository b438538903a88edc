use vstd::arithmetic::div_mod::{lemma_div_is_ordered, lemma_div_multiples_vanish, lemma_multiply_divide_lt};
use vstd::arithmetic::power2::{lemma2_to64, lemma2_to64_rest, lemma_pow2_strictly_increases, lemma_pow2_unfold, pow2};
use vstd::prelude::*;

verus! {

/// Number of fractional bits of the fixed-point logarithms.
pub const FRAC_BITS: u32 = 48;

/// The value one in fixed point: `2^FRAC_BITS`.
pub const FIX_ONE: u128 = 0x1_0000_0000_0000;

/// Floor of the base-2 logarithm of `k` (zero below two).
pub open spec fn ilog2(k: nat) -> nat
    decreases k,
{
    if k < 2 {
        0
    } else {
        1 + ilog2(k / 2)
    }
}

/// `k / 2^ilog2(k)`, a value in `[1, 2)`, in fixed point.
pub open spec fn mantissa(k: nat) -> nat {
    ((k * FIX_ONE) as int / pow2(ilog2(k)) as int) as nat
}

/// The fractional bits of `log2` of the fixed-point mantissa `y`, found one at
/// a time by squaring: a square of two or more yields a one bit and is halved.
/// `acc` holds the bits found so far, `rem` counts the bits still to find.
pub open spec fn frac_bits(y: nat, rem: nat, acc: nat) -> nat
    decreases rem,
{
    if rem == 0 {
        acc
    } else {
        let z = (y * y) / (FIX_ONE as nat);
        if z >= 2 * FIX_ONE {
            frac_bits(z / 2, (rem - 1) as nat, 2 * acc + 1)
        } else {
            frac_bits(z, (rem - 1) as nat, 2 * acc)
        }
    }
}

/// `log2(k)` in fixed point with `FRAC_BITS` fractional bits: the integer part
/// exact, the fractional part by repeated squaring with truncation.
pub open spec fn fixed_log2(k: nat) -> nat {
    ilog2(k) * (FIX_ONE as nat) + frac_bits(mantissa(k), FRAC_BITS as nat, 0)
}

proof fn lemma_square_bounds(y: int)
    requires
        FIX_ONE <= y < 2 * FIX_ONE,
    ensures
        FIX_ONE <= (y * y) / (FIX_ONE as int) < 4 * FIX_ONE,
        y * y < 4 * FIX_ONE * FIX_ONE,
{
    let one = FIX_ONE as int;
    assert(one * one <= y * y < one * (4 * one)) by (nonlinear_arith)
        requires
            one <= y < 2 * one,
            one > 0,
    ;
    lemma_div_is_ordered(one * one, y * y, one);
    lemma_div_multiples_vanish(one, one);
    lemma_multiply_divide_lt(y * y, one, 4 * one);
}

/// Computes `fixed_log2(k)`, which stays below `64 * FIX_ONE`.
pub fn log2_fixed(k: u128) -> (r: u128)
    requires
        1 <= k < 0x1_0000_0000_0000_0000,
    ensures
        r == fixed_log2(k as nat),
        r < 64 * FIX_ONE,
{
    let mut v: u128 = k;
    let mut ip: u128 = 0;
    let mut p: u128 = 1;
    proof {
        lemma2_to64();
    }
    while v >= 2
        invariant
            1 <= k < 0x1_0000_0000_0000_0000,
            1 <= v,
            1 <= p,
            ip < p,
            p == pow2(ip as nat),
            ilog2(k as nat) == ip + ilog2(v as nat),
            p * v <= k,
            k < (v + 1) * p,
        decreases v,
    {
        proof {
            lemma_pow2_unfold((ip + 1) as nat);
            let h = v / 2;
            assert(2 * h <= v <= 2 * h + 1);
            assert((2 * p) * h <= p * v) by (nonlinear_arith)
                requires
                    2 * h <= v,
                    p >= 1,
            ;
            assert((v + 1) * p <= (h + 1) * (2 * p)) by (nonlinear_arith)
                requires
                    v <= 2 * h + 1,
                    p >= 1,
            ;
            assert(2 * p <= p * v) by (nonlinear_arith)
                requires
                    v >= 2,
                    p >= 1,
            ;
        }
        v = v / 2;
        ip = ip + 1;
        p = p * 2;
    }
    proof {
        assert(v == 1);
        if ip > 64 {
            lemma_pow2_strictly_increases(64, ip as nat);
        }
        assert(ip <= 63);
    }
    let one = FIX_ONE;
    let mut y: u128 = k * one / p;
    proof {
        let kk = k as int;
        let pp = p as int;
        let oo = one as int;
        assert(pp * oo <= kk * oo && kk * oo < pp * (2 * oo)) by (nonlinear_arith)
            requires
                pp <= kk < 2 * pp,
                oo > 0,
        ;
        lemma_div_is_ordered(pp * oo, kk * oo, pp);
        lemma_div_multiples_vanish(oo, pp);
        lemma_multiply_divide_lt(kk * oo, pp, 2 * oo);
        assert(y == mantissa(k as nat));
    }
    let mut acc: u128 = 0;
    let mut rem: u32 = FRAC_BITS;
    let ghost mut bound: nat = 1;
    proof {
        lemma2_to64_rest();
    }
    while rem > 0
        invariant
            FIX_ONE <= y < 2 * FIX_ONE,
            one == FIX_ONE,
            ip <= 63,
            ilog2(k as nat) == ip,
            rem <= FRAC_BITS,
            frac_bits(y as nat, rem as nat, acc as nat) == frac_bits(mantissa(k as nat), FRAC_BITS as nat, 0),
            acc < bound,
            bound * pow2(rem as nat) == FIX_ONE,
        decreases rem,
    {
        proof {
            lemma_square_bounds(y as int);
            lemma_pow2_unfold(rem as nat);
            let q = pow2((rem - 1) as nat);
            assert(bound * q >= 1) by (nonlinear_arith)
                requires
                    bound * (2 * q) == FIX_ONE,
                    q >= 0,
            ;
            assert(2 * bound <= FIX_ONE) by (nonlinear_arith)
                requires
                    bound * (2 * q) == FIX_ONE,
                    bound * q >= 1,
            ;
            assert((2 * bound) * q == FIX_ONE) by (nonlinear_arith)
                requires
                    bound * (2 * q) == FIX_ONE,
            ;
        }
        let z = y * y / one;
        if z >= 2 * one {
            y = z / 2;
            acc = 2 * acc + 1;
        } else {
            y = z;
            acc = 2 * acc;
        }
        rem = rem - 1;
        proof {
            bound = 2 * bound;
        }
    }
    proof {
        assert(pow2(0) == 1);
        assert(pow2(rem as nat) == 1);
        assert(bound == FIX_ONE) by (nonlinear_arith)
            requires
                bound * pow2(rem as nat) == FIX_ONE,
                pow2(rem as nat) == 1,
        ;
        assert(ip * FIX_ONE <= 63 * FIX_ONE) by (nonlinear_arith)
            requires
                ip <= 63,
        ;
    }
    ip * one + acc
}

} // verus!
