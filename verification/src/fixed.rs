//! Deterministic fixed-point arithmetic in Q32.32: integer square root,
//! integer powers, absolute value and floor, with the constants of the
//! fixed-point exponential.
use vstd::prelude::*;
use vstd::arithmetic::div_mod::lemma_fundamental_div_mod_converse;
use vstd::arithmetic::power2::{lemma2_to64, lemma_pow2_pos, lemma_pow2_strictly_increases, pow2};
use vstd::bits::{lemma_u128_shr_is_div, lemma_u64_shl_is_mul};

verus! {

/// Fractional bits of Q32.32.
pub const FRAC: u32 = 32;

/// 2^32, the Q32.32 scale.
pub const SCALE: i128 = 4294967296;

/// ln(2) in Q32.32.
pub const LN2_Q32: i64 = 2977044472;

/// 1/ln(2) in Q32.32.
pub const INVLN2_Q32: i64 = 6196328019;

/// ln(2) in Q40.40.
pub const C40: i128 = 762123384786;

/// Taylor coefficients `round(2^32 / n!)` for `n` in `0..=12`.
pub const COEFFS: [i64; 13] = [
    4294967296,
    4294967296,
    2147483648,
    715827883,
    178956971,
    35791394,
    5965232,
    852176,
    106522,
    11836,
    1184,
    108,
    9,
];

/// A Q32.32 fixed-point number: the real value is `raw / 2^32`.
#[derive(Debug, Clone, Copy, PartialEq, Eq, PartialOrd, Ord, Hash)]
pub struct Q32_32(pub i64);

impl Q32_32 {
    pub fn raw(self) -> (r: i64)
        ensures
            r == self.0,
    {
        self.0
    }

    /// 1.0
    pub fn one() -> (r: Self)
        ensures
            r.0 == 4294967296,
    {
        Q32_32(4294967296)
    }

    /// 0.0
    pub fn zero() -> (r: Self)
        ensures
            r.0 == 0,
    {
        Q32_32(0)
    }
}

proof fn lemma_or_step(r: u64, j: u64)
    by (bit_vector)
    requires
        j < 32,
        r & (((1u64 << ((j + 1) as u64)) - 1) as u64) == 0,
        r < (1u64 << 32u64),
    ensures
        r | (1u64 << j) == r + (1u64 << j),
        ((r + (1u64 << j)) as u64) & (((1u64 << j) - 1) as u64) == 0,
        r & (((1u64 << j) - 1) as u64) == 0,
        r + (1u64 << j) < (1u64 << 32u64),
        (1u64 << j) >> 1u64 == (if j == 0 { 0u64 } else { 1u64 << ((j - 1) as u64) }),
        (1u64 << ((j + 1) as u64)) == 2 * (1u64 << j),
{
}

/// Integer square root bit by bit over bits 31 down to 0: `⌊√x⌋`, the
/// `r` with `r² ≤ x < (r + 1)²`.
pub fn sqrt_fixed(x: u64) -> (r: u64)
    ensures
        r * r <= x < (r + 1) * (r + 1),
{
    if x == 0 {
        return 0;
    }
    let mut result: u64 = 0;
    let mut step: u64 = 1u64 << 31;
    let ghost mut j: u64 = 31;
    let ghost mut span: int = 0x1_0000_0000;
    proof {
        assert(1u64 << 31u64 == 0x8000_0000) by (bit_vector);
        assert(0u64 & (((1u64 << 32u64) - 1) as u64) == 0) by (bit_vector);
    }
    while step != 0
        invariant
            result * result <= x,
            result < 0x1_0000_0000,
            (result + span) * (result + span) > x || result + span == 0x1_0000_0000,
            step != 0 ==> j < 32 && step == (1u64 << j) && span == 2 * step && result & (((1u64 << ((j + 1) as u64)) - 1) as u64) == 0,
            step == 0 ==> span == 1,
        decreases step,
    {
        proof {
            assert(result < (1u64 << 32u64)) by (bit_vector)
                requires
                    result < 0x1_0000_0000,
            ;
            lemma_or_step(result, j);
            assert((1u64 << 32u64) == 0x1_0000_0000) by (bit_vector);
        }
        let ghost old_result = result;
        let candidate = result | step;
        match candidate.checked_mul(candidate) {
            Some(sq) => {
                if sq <= x {
                    result = candidate;
                }
            },
            None => {},
        }
        proof {
            assert(candidate == old_result + step);
            if result != candidate {
                assert(candidate * candidate > x);
            }
        }
        step = step >> 1;
        proof {
            span = span / 2;
            if j > 0 {
                let jj = (j - 1) as u64;
                assert(step == 1u64 << jj);
                assert((1u64 << (jj + 1) as u64) == 2 * (1u64 << jj)) by (bit_vector)
                    requires
                        jj < 31,
                ;
                assert(((jj + 1) as u64) == j);
                j = jj;
            } else {
                assert(1u64 << 0u64 == 1) by (bit_vector);
                assert(step == 0);
            }
        }
    }
    proof {
        if result + 1 == 0x1_0000_0000 {
            assert(x < (result + 1) * (result + 1)) by (nonlinear_arith)
                requires
                    result + 1 == 0x1_0000_0000,
                    x <= 0xffff_ffff_ffff_ffff,
            ;
        }
    }
    result
}

/// `b` to the power `e`.
pub open spec fn pow(b: int, e: nat) -> int
    decreases e,
{
    if e == 0 {
        1
    } else {
        b * pow(b, (e - 1) as nat)
    }
}

/// `base^exp`, saturating at `u64::MAX`.
pub fn power_fixed(base: u64, exp: u32) -> (r: u64)
    ensures
        r == (if pow(base as int, exp as nat) > u64::MAX { u64::MAX as int } else { pow(
            base as int,
            exp as nat,
        ) }),
{
    let mut result: u64 = 1;
    let mut i: u32 = 0;
    proof {
        assert(pow(base as int, 0) == 1);
    }
    while i < exp
        invariant
            i <= exp,
            result == (if pow(base as int, i as nat) > u64::MAX { u64::MAX as int } else { pow(
                base as int,
                i as nat,
            ) }),
            pow(base as int, i as nat) >= 0,
        decreases exp - i,
    {
        let ghost p = pow(base as int, i as nat);
        proof {
            assert(pow(base as int, (i + 1) as nat) == base * p);
            assert(base * p >= 0) by (nonlinear_arith)
                requires
                    p >= 0,
            ;
            if p > u64::MAX {
                assert(result == u64::MAX);
                if base >= 1 {
                    assert(base * p >= p) by (nonlinear_arith)
                        requires
                            base >= 1,
                            p >= 0,
                    ;
                    assert(result * base >= u64::MAX) by (nonlinear_arith)
                        requires
                            base >= 1,
                            result == u64::MAX,
                    ;
                } else {
                    assert(result * base == 0);
                }
            } else {
                assert(result == p);
                assert(result * base == base * p) by (nonlinear_arith)
                    requires
                        result == p,
                ;
            }
        }
        result = match result.checked_mul(base) {
            Some(v) => v,
            None => u64::MAX,
        };
        i = i + 1;
    }
    result
}

/// Absolute value.
pub fn abs_fixed(x: Q32_32) -> (r: Q32_32)
    requires
        x.0 != i64::MIN,
    ensures
        r.0 == (if x.0 >= 0 { x.0 as int } else { -x.0 }),
{
    if x.0 >= 0 {
        x
    } else {
        Q32_32(-x.0)
    }
}

/// The integer part rounded toward −∞ (arithmetic shift right by 32).
pub fn floor_fixed(x: Q32_32) -> (r: i64)
    ensures
        r as int * 4294967296 <= x.0 < (r as int + 1) * 4294967296,
{
    let r = x.0 >> FRAC;
    proof {
        let v = x.0;
        assert(r == v >> 32u32);
        assert((v >> 32u32) as int * 4294967296 <= v as int) by (bit_vector);
        assert(v < ((v >> 32u32) as int + 1) * 4294967296) by (bit_vector);
    }
    r
}


// ─── The exponential ─────────────────────────────────────────────────

/// Arithmetic right shift by 32 is floor division by 2^32.
proof fn lemma_shr32(a: i128)
    requires
        -0x100_0000_0000_0000_0000_0000_0000_0000 < a < 0x100_0000_0000_0000_0000_0000_0000_0000,
    ensures
        a >> 32u32 == a / 0x1_0000_0000,
{
    assert((a >> 32u32) * 0x1_0000_0000 <= a && a < (a >> 32u32) * 0x1_0000_0000 + 0x1_0000_0000) by (bit_vector)
        requires
            -0x100_0000_0000_0000_0000_0000_0000_0000 < a < 0x100_0000_0000_0000_0000_0000_0000_0000,
    ;
    let q = a >> 32u32;
    lemma_fundamental_div_mod_converse(a as int, 0x1_0000_0000, q as int, a - q * 0x1_0000_0000);
}

/// Arithmetic right shift by 64 is floor division by 2^64.
proof fn lemma_shr64(a: i128)
    requires
        -0x1_0000_0000_0000_0000_0000_0000 < a < 0x7fff_ffff_ffff_ffff_ffff_ffff_ffff_ffff,
    ensures
        a >> 64u32 == a / 0x1_0000_0000_0000_0000,
{
    assert((a >> 64u32) * 0x1_0000_0000_0000_0000 <= a && a < (a >> 64u32) * 0x1_0000_0000_0000_0000
        + 0x1_0000_0000_0000_0000) by (bit_vector);
    let q = a >> 64u32;
    lemma_fundamental_div_mod_converse(a as int, 0x1_0000_0000_0000_0000, q as int, a - q * 0x1_0000_0000_0000_0000);
}

/// Every Taylor coefficient is between 0 and 2^32.
proof fn lemma_coeffs_bounded()
    ensures
        forall|n: int| 0 <= n < 13 ==> 0 <= #[trigger] COEFFS@[n] <= 0x1_0000_0000,
{
}

/// The range reduction's `k = round(x / ln 2)`, with 1/ln 2 in Q32.32 and
/// halves rounded away from zero.
pub open spec fn exp_k(x: int) -> int {
    let prod = x * INVLN2_Q32;
    if prod >= 0 {
        (prod + 0x8000_0000_0000_0000) / 0x1_0000_0000_0000_0000
    } else {
        -((-prod + 0x8000_0000_0000_0000) / 0x1_0000_0000_0000_0000)
    }
}

/// The reduced argument `x - k ln 2` scaled by 2^64, with ln 2 in Q40.40.
pub open spec fn exp_r64(x: int) -> int {
    x * 0x1_0000_0000 - exp_k(x) * C40 * 0x100_0000
}

/// Horner's rule for the Taylor polynomial of degree 12, from coefficient
/// `n` up, in Q32.64, at the reduced argument's high part `rhi` (Q32.32).
pub open spec fn horner(rhi: int, n: int) -> int
    decreases 12 - n,
{
    if n >= 12 {
        COEFFS@[12] * 0x1_0000_0000
    } else {
        (horner(rhi, n + 1) * rhi) / 0x1_0000_0000 + COEFFS@[n] * 0x1_0000_0000
    }
}

/// exp of the Q32.32 number `x`, in Q32.32: `exp(x) = 2^k · exp(r)` with
/// `exp(r)` by the Taylor polynomial on the high part of `r` corrected by
/// its low part, then scaled by `2^k` and rounded once.
pub open spec fn exp_q32(x: int) -> int {
    let k = exp_k(x);
    let r64 = exp_r64(x);
    let rhi = r64 / 0x1_0000_0000;
    let rlo = r64 % 0x1_0000_0000;
    let acc = horner(rhi, 0);
    let full = acc * 0x1_0000_0000 + (acc * rlo) / 0x1_0000_0000;
    if k >= 0 {
        (full * pow2(k as nat) + 0x8000_0000_0000_0000) / 0x1_0000_0000_0000_0000
    } else {
        (full / (pow2((-k) as nat) as int) + 0x8000_0000_0000_0000) / 0x1_0000_0000_0000_0000
    }
}

/// On the inputs `-88 ≤ x ≤ 21` the reduction gives `-127 ≤ k ≤ 30` and a
/// reduced argument below `0.35` in size.
proof fn lemma_exp_reduction(x: int)
    requires
        -377957122048 <= x <= 90194313216,
    ensures
        -127 <= exp_k(x) <= 30,
        -0x5_8b90_bfbe_8e7b_cd5e <= exp_r64(x) <= 0x5_8b90_bfbe_8e7b_cd5e,
{
    let prod = x * INVLN2_Q32;
    let k = exp_k(x);
    if prod >= 0 {
        lemma_fundamental_div_mod_converse(
            prod + 0x8000_0000_0000_0000,
            0x1_0000_0000_0000_0000,
            k,
            (prod + 0x8000_0000_0000_0000) % 0x1_0000_0000_0000_0000,
        );
    } else {
        let q = (-prod + 0x8000_0000_0000_0000) / 0x1_0000_0000_0000_0000;
        lemma_fundamental_div_mod_converse(
            -prod + 0x8000_0000_0000_0000,
            0x1_0000_0000_0000_0000,
            q,
            (-prod + 0x8000_0000_0000_0000) % 0x1_0000_0000_0000_0000,
        );
    }
}


/// On a reduced argument below `0.35` in size every Horner step stays
/// below `1.58 · 2^64` in size, and the polynomial's value is positive.
proof fn lemma_horner_bounded(rhi: int, n: int)
    requires
        -1_500_000_000 <= rhi <= 1_500_000_000,
        0 <= n <= 12,
    ensures
        -29_000_000_000_000_000_000 <= horner(rhi, n) <= 29_000_000_000_000_000_000,
        n == 0 ==> horner(rhi, n) > 0,
    decreases 12 - n,
{
    lemma_coeffs_bounded();
    if n < 12 {
        lemma_horner_bounded(rhi, n + 1);
        let h = horner(rhi, n + 1);
        assert(-43_500_000_000_000_000_000_000_000_000 <= h * rhi <= 43_500_000_000_000_000_000_000_000_000)
            by (nonlinear_arith)
            requires
                -29_000_000_000_000_000_000 <= h <= 29_000_000_000_000_000_000,
                -1_500_000_000 <= rhi <= 1_500_000_000,
        ;
    }
}

/// Deterministic exp in Q32.32, with no floating point: range reduction
/// `x = k ln 2 + r`, the Taylor polynomial of degree 12 on `r` by Horner's
/// rule with 32 guard bits, a correction for the low part of `r`, and one
/// final rounding after scaling by `2^k`. The inputs are those from -88 to
/// 21, where the scaling shift stays within 128 bits and the result fits.
pub fn exp_fixed(x: Q32_32) -> (r: Q32_32)
    requires
        -377957122048 <= x.0 <= 90194313216,
    ensures
        r.0 == exp_q32(x.0 as int),
{
    let ghost xi = x.0 as int;
    proof {
        lemma_exp_reduction(xi);
    }
    let xq = x.0 as i128;
    let prod = xq * (INVLN2_Q32 as i128);
    let half: i128 = 0x8000_0000_0000_0000;
    let k: i64 = if prod >= 0 {
        proof {
            lemma_shr64((prod + half) as i128);
        }
        ((prod + half) >> 64u32) as i64
    } else {
        proof {
            lemma_shr64((-prod + half) as i128);
        }
        -(((-prod + half) >> 64u32) as i64)
    };
    assert(k == exp_k(xi));
    let r64: i128 = xq * SCALE - (k as i128) * C40 * 0x100_0000;
    assert(r64 == exp_r64(xi));
    proof {
        lemma_shr32(r64);
    }
    let rhi: i128 = r64 >> FRAC;
    let rlo64: i128 = r64 - rhi * SCALE;
    proof {
        lemma_fundamental_div_mod_converse(r64 as int, 0x1_0000_0000, rhi as int, rlo64 as int);
        lemma_coeffs_bounded();
    }
    let mut acc: i128 = (COEFFS[12] as i128) * SCALE;
    let mut n: usize = 12;
    while n > 0
        invariant
            n <= 12,
            -1_500_000_000 <= rhi <= 1_500_000_000,
            acc == horner(rhi as int, n as int),
        decreases n,
    {
        proof {
            lemma_horner_bounded(rhi as int, n as int);
            lemma_coeffs_bounded();
            assert(-43_500_000_000_000_000_000_000_000_000 <= acc * rhi <= 43_500_000_000_000_000_000_000_000_000)
                by (nonlinear_arith)
                requires
                    -29_000_000_000_000_000_000 <= acc <= 29_000_000_000_000_000_000,
                    -1_500_000_000 <= rhi <= 1_500_000_000,
            ;
            lemma_shr32((acc * rhi) as i128);
        }
        n = n - 1;
        acc = (acc * rhi) >> FRAC;
        acc = acc + (COEFFS[n] as i128) * SCALE;
    }
    proof {
        lemma_horner_bounded(rhi as int, 0);
        assert(0 <= acc * rlo64 <= 29_000_000_000_000_000_000 * 0x1_0000_0000) by (nonlinear_arith)
            requires
                0 < acc <= 29_000_000_000_000_000_000,
                0 <= rlo64 < 0x1_0000_0000,
        ;
        lemma_shr32((acc * rlo64) as i128);
    }
    let exp_full: i128 = acc * SCALE + ((acc * rlo64) >> FRAC);
    let result: i64 = if k >= 0 {
        proof {
            lemma2_to64();
            if k < 30 {
                lemma_pow2_strictly_increases(k as nat, 30);
            }
            lemma_pow2_pos(k as nat);
            lemma_u64_shl_is_mul(1, k as u64);
        }
        let p = (1u64 << (k as u64)) as i128;
        proof {
            assert(0 < exp_full * p <= 130_000_000_000_000_000_000_000_000_000 * 0x4000_0000) by (nonlinear_arith)
                requires
                    0 < exp_full <= 130_000_000_000_000_000_000_000_000_000,
                    0 < p <= 0x4000_0000,
            ;
            lemma_shr64((exp_full * p + half) as i128);
        }
        ((exp_full * p + half) >> 64u32) as i64
    } else {
        let m = (-k) as u128;
        let ef = exp_full as u128;
        proof {
            lemma_u128_shr_is_div(ef, m);
            lemma_pow2_pos(m as nat);
        }
        let q = (ef >> m) as i128;
        proof {
            lemma_shr64((q + half) as i128);
        }
        ((q + half) >> 64u32) as i64
    };
    Q32_32(result)
}

} // verus!
