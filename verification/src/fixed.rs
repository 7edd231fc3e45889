use vstd::prelude::*;

verus! {

/// The denominator of the fixed-point representation: values are kept as
/// `value * 1_000_000` in an `i64`, so the learning rate, regularization
/// and tolerance of the factorization are represented exactly.
pub const FX_ONE: i64 = 1_000_000;

/// Truncating division by the fixed-point denominator, as Rust's `/`
/// truncates: toward zero.
pub open spec fn spec_tdiv_scale(x: int) -> int {
    if x >= 0 {
        x / 1_000_000
    } else {
        -((-x) / 1_000_000)
    }
}

/// The exact fixed-point product: multiply, then scale back down with
/// truncation toward zero.
pub open spec fn spec_fx_mul(a: int, b: int) -> int {
    spec_tdiv_scale(a * b)
}

/// Does `x` fit the 64-bit fixed-point carrier?
pub open spec fn fx_fits(x: int) -> bool {
    i64::MIN <= x <= i64::MAX
}

/// Fixed-point multiplication. `None` reports that the exact scaled
/// product leaves the carrier, never a wrapped value.
pub fn fx_mul(a: i64, b: i64) -> (r: Option<i64>)
    ensures
        match r {
            Some(v) => v == spec_fx_mul(a as int, b as int) && fx_fits(
                spec_fx_mul(a as int, b as int),
            ),
            None => !fx_fits(spec_fx_mul(a as int, b as int)),
        },
{
    proof {
        assert(-(0x8000_0000_0000_0000 * 0x8000_0000_0000_0000) <= (a as int) * (b as int)
            <= 0x8000_0000_0000_0000 * 0x8000_0000_0000_0000) by (nonlinear_arith)
            requires
                -0x8000_0000_0000_0000 <= a <= 0x8000_0000_0000_0000,
                -0x8000_0000_0000_0000 <= b <= 0x8000_0000_0000_0000,
        ;
    }
    let p: i128 = (a as i128) * (b as i128);
    let neg: bool = p < 0;
    let mag: u128 = if p >= 0 {
        p as u128
    } else {
        (-p) as u128
    };
    let qm: u128 = mag / 1_000_000;
    proof {
        vstd::arithmetic::div_mod::lemma_fundamental_div_mod(mag as int, 1_000_000);
        vstd::arithmetic::div_mod::lemma_mod_bound(mag as int, 1_000_000);
        assert((mag as int) / 1_000_000 <= mag) by (nonlinear_arith)
            requires
                mag == 1_000_000 * ((mag as int) / 1_000_000) + (mag as int) % 1_000_000,
                (mag as int) % 1_000_000 >= 0,
                (mag as int) / 1_000_000 >= 0,
        ;
        assert(qm == (mag as int) / 1_000_000);
        if neg {
            assert(mag == -(p as int));
            assert(spec_tdiv_scale(p as int) == -(qm as int));
        } else {
            assert(mag == p as int);
            assert(spec_tdiv_scale(p as int) == qm as int);
        }
    }
    let q: i128 = if neg {
        -(qm as i128)
    } else {
        qm as i128
    };
    if q >= i64::MIN as i128 && q <= i64::MAX as i128 {
        Some(q as i64)
    } else {
        None
    }
}

/// The integer square root: the greatest integer whose square does not
/// exceed `x`.
pub fn isqrt_u128(x: u128) -> (r: u64)
    ensures
        (r as int) * (r as int) <= x,
        x < ((r as int) + 1) * ((r as int) + 1),
{
    let mut lo: u128 = 0;
    let mut hi: u128 = 0x1_0000_0000_0000_0000;
    proof {
        assert((hi as int) * (hi as int) > x) by (nonlinear_arith)
            requires
                hi == 0x1_0000_0000_0000_0000,
                x < 0x1_0000_0000_0000_0000 * 0x1_0000_0000_0000_0000,
        ;
    }
    while lo + 1 < hi
        invariant
            0 <= lo < hi <= 0x1_0000_0000_0000_0000,
            (lo as int) * (lo as int) <= x,
            x < (hi as int) * (hi as int),
        decreases hi - lo,
    {
        let mid: u128 = lo + (hi - lo) / 2;
        proof {
            assert(lo < mid < hi);
            assert((mid as int) * (mid as int) < 0x1_0000_0000_0000_0000
                * 0x1_0000_0000_0000_0000) by (nonlinear_arith)
                requires
                    0 <= mid,
                    mid < 0x1_0000_0000_0000_0000,
            ;
        }
        let sq: u128 = mid * mid;
        if sq <= x {
            lo = mid;
        } else {
            hi = mid;
        }
    }
    proof {
        assert(hi == lo + 1);
        assert(lo <= 0xffff_ffff_ffff_ffff) by (nonlinear_arith)
            requires
                (lo as int) * (lo as int) <= x,
                x < 0x1_0000_0000_0000_0000 * 0x1_0000_0000_0000_0000,
                lo < 0x1_0000_0000_0000_0001,
        ;
    }
    lo as u64
}

} // verus!
