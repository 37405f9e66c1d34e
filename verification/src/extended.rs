//! The extended-precision floating-point scratch type and its arithmetic:
//! decomposition of a binary64 bit pattern, normalization, boundary
//! computation and the 64x64 high-word multiply.

use vstd::arithmetic::div_mod::{lemma_div_is_ordered, lemma_fundamental_div_mod, lemma_hoist_over_denominator, lemma_mod_division_less_than_divisor};
use vstd::arithmetic::mul::{lemma_mul_inequality, lemma_mul_strict_inequality};
use vstd::arithmetic::power2::{lemma2_to64, lemma2_to64_rest, lemma_pow2_adds, lemma_pow2_pos, pow2};
use vstd::bits::{lemma_low_bits_mask_values, lemma_u64_low_bits_mask_is_mod, lemma_u64_shl_is_mul, lemma_u64_shr_is_div};
use vstd::prelude::*;

verus! {

/// Mask of the stored fraction bits of a binary64 pattern.
pub const FRACMASK: u64 = 0x000FFFFFFFFFFFFF;

/// Mask of the biased exponent bits of a binary64 pattern.
pub const EXPMASK: u64 = 0x7FF0000000000000;

/// The implicit leading significand bit of a normal binary64 value.
pub const HIDDENBIT: u64 = 0x0010000000000000;

/// Exponent bias of binary64 once the 52 stored fraction bits are counted in.
pub const EXPBIAS: i32 = 1023 + 52;

/// An extended-precision floating-point value, representing
/// `frac * 2^exp` with the full 64 bits of `frac` available.
#[derive(Clone, Copy, Debug, PartialEq, Eq, Structural)]
pub struct FloatType {
    pub frac: u64,
    pub exp: i32,
}

/// The extended-precision decomposition of a binary64 bit pattern: the
/// stored fraction with the implicit bit restored for normal values, and
/// the unbiased exponent of the fraction taken as an integer.
pub open spec fn spec_build_fp(bits: u64) -> FloatType {
    let rawf = bits & FRACMASK;
    let rawe = (bits & EXPMASK) >> 52u64;
    if rawe != 0 {
        FloatType { frac: (rawf + HIDDENBIT) as u64, exp: (rawe as int - EXPBIAS as int) as i32 }
    } else {
        FloatType { frac: rawf, exp: (1 - EXPBIAS as int) as i32 }
    }
}

proof fn lemma_build_fp_bits(bits: u64)
    by (bit_vector)
    ensures
        bits & 0x000FFFFFFFFFFFFF <= 0x000FFFFFFFFFFFFF,
        ((bits & 0x7FF0000000000000) >> 52u64) <= 0x7FF,
        (((bits & 0x7FF0000000000000) >> 52u64) == 0 && bits & 0x7FFFFFFFFFFFFFFF != 0)
            ==> bits & 0x000FFFFFFFFFFFFF != 0,
{
}

/// Extract the significand and unbiased exponent of a binary64 bit
/// pattern, restoring the implicit leading bit of normal values.
/// The sign bit is ignored.
pub fn build_fp(bits: u64) -> (fp: FloatType)
    ensures
        fp == spec_build_fp(bits),
        fp.frac < 0x20000000000000,
        bits & 0x7FFFFFFFFFFFFFFF != 0 ==> 1 <= fp.frac,
        -1074 <= fp.exp as int <= 972,
{
    proof {
        lemma_build_fp_bits(bits);
    }
    let rawf: u64 = bits & FRACMASK;
    let rawe: u64 = (bits & EXPMASK) >> 52u64;
    let rawe_i: i32 = rawe as i32;
    if rawe_i != 0 {
        FloatType { frac: rawf + HIDDENBIT, exp: rawe_i - EXPBIAS }
    } else {
        FloatType { frac: rawf, exp: 1 - EXPBIAS }
    }
}

proof fn lemma_below_hidden(frac: u64)
    by (bit_vector)
    ensures
        (frac & 0x0010000000000000 == 0 && frac < 0x20000000000000) ==> frac < 0x0010000000000000,
        frac & 0x0010000000000000 != 0 ==> frac >= 0x0010000000000000,
{
}

/// Shift the significand left until its leading bit occupies the top bit
/// of the 64-bit word, lowering the exponent once per shift.  The value
/// `frac * 2^exp` is unchanged.
pub fn normalize(fp: &mut FloatType)
    requires
        1 <= old(fp).frac < 0x20000000000000,
        old(fp).exp >= i32::MIN + 63,
    ensures
        final(fp).frac >= 0x8000000000000000,
        old(fp).exp - 63 <= final(fp).exp <= old(fp).exp - 11,
        final(fp).frac == old(fp).frac * pow2((old(fp).exp - final(fp).exp) as nat),
{
    let ghost orig: FloatType = *fp;
    proof {
        lemma2_to64();
        lemma2_to64_rest();
        assert(pow2(0) == 1);
        assert((orig.exp - fp.exp) as nat == 0);
        assert(fp.frac == orig.frac * pow2((orig.exp - fp.exp) as nat));
    }
    while (fp.frac & HIDDENBIT) == 0
        invariant
            1 <= fp.frac < 0x20000000000000,
            orig.exp - 52 <= fp.exp <= orig.exp,
            orig.exp >= i32::MIN + 63,
            1 <= orig.frac,
            orig == *old(fp),
            fp.frac == orig.frac * pow2((orig.exp - fp.exp) as nat),
        decreases 0x20000000000000 - fp.frac,
    {
        proof {
            lemma_below_hidden(fp.frac);
            lemma2_to64();
            lemma2_to64_rest();
            let s = (orig.exp - fp.exp) as nat;
            lemma_pow2_adds(s, 1);
            let of = orig.frac as int;
            let p = pow2(s) as int;
            assert(of * p * 2 == of * (p * 2)) by (nonlinear_arith);
            lemma_u64_shl_is_mul(fp.frac, 1);
            // the exponent cannot hit 52 shifts while frac stays below 2^52
            assert(fp.frac >= pow2(s)) by {
                lemma_pow2_pos(s);
                lemma_mul_inequality(1, orig.frac as int, pow2(s) as int);
            }
            if fp.exp == orig.exp - 52 {
                assert(pow2(52) == 0x10000000000000);
                assert(false);
            }
        }
        fp.frac = fp.frac << 1u64;
        fp.exp = fp.exp - 1;
    }
    proof {
        lemma_below_hidden(fp.frac);
        let s = (old(fp).exp - fp.exp) as nat;
        lemma_pow2_adds(s, 11);
        let of = old(fp).frac as int;
        let p = pow2(s) as int;
        let q = pow2(11) as int;
        assert(of * p * q == of * (p * q)) by (nonlinear_arith);
        lemma_u64_shl_is_mul(fp.frac, 11);
        assert(fp.frac * pow2(11) >= 0x0010000000000000 * 0x800) by {
            lemma_mul_inequality(0x0010000000000000, fp.frac as int, 0x800);
        }
        assert(fp.frac * pow2(11) < 0x20000000000000 * 0x800) by {
            lemma_mul_strict_inequality(fp.frac as int, 0x20000000000000, 0x800);
        }
    }
    fp.frac = fp.frac << 11u64;
    fp.exp = fp.exp - 11;
}

/// The significand of the halfway point to the next lower representable
/// value, before alignment.  One extra bit of precision is taken when the
/// significand is exactly the implicit bit: below an exact power of two
/// the gap to the previous value is only half the usual spacing.
pub open spec fn low_mant(fp: FloatType) -> int {
    if fp.frac == HIDDENBIT {
        4 * fp.frac - 1
    } else {
        2 * fp.frac - 1
    }
}

/// How many bits the significand is widened by for the lower boundary.
pub open spec fn low_off(fp: FloatType) -> int {
    if fp.frac == HIDDENBIT {
        2
    } else {
        1
    }
}

proof fn lemma_below_hidden2(frac: u64)
    by (bit_vector)
    ensures
        (frac & 0x0020000000000000 == 0 && frac < 0x40000000000000) ==> frac < 0x0020000000000000,
        frac & 0x0020000000000000 != 0 ==> frac >= 0x0020000000000000,
{
}

/// Compute the two midpoints between `fp` and its adjacent representable
/// values, both normalized to one shared exponent: `upper` carries the
/// top bit one position below the word's top bit (headroom for the `+1`)
/// and `lower` is aligned to the very same exponent.
pub fn get_normalized_boundaries(fp: &FloatType, lower: &mut FloatType, upper: &mut FloatType)
    requires
        1 <= fp.frac < 0x20000000000000,
        i32::MIN + 64 <= fp.exp,
    ensures
        final(upper).frac >= 0x8000000000000000,
        fp.exp - 63 <= final(upper).exp <= fp.exp - 11,
        final(upper).frac == (2 * fp.frac + 1) * pow2((fp.exp - 1 - final(upper).exp) as nat),
        fp.exp - 1 - final(upper).exp >= 10,
        final(lower).exp == final(upper).exp,
        final(lower).frac == low_mant(*fp) * pow2((fp.exp - low_off(*fp) - final(upper).exp) as nat),
        1 <= final(lower).frac < final(upper).frac,
{
    proof {
        lemma2_to64();
        lemma2_to64_rest();
    }
    proof {
        lemma_u64_shl_is_mul(fp.frac, 1);
    }
    let mut ufrac: u64 = (fp.frac << 1u64) + 1;
    let mut uexp: i32 = fp.exp - 1;
    proof {
        assert(pow2(0) == 1 && pow2(1) == 2);
        assert((fp.frac << 1u64) == fp.frac * pow2(1));
        assert(ufrac == 2 * fp.frac + 1);
        let m = (2 * fp.frac + 1) as int;
        let p = pow2((fp.exp - 1 - uexp) as nat) as int;
        assert(m * p == m) by (nonlinear_arith)
            requires p == 1;
        assert(ufrac == (2 * fp.frac + 1) * pow2((fp.exp - 1 - uexp) as nat));
    }
    while ufrac & (HIDDENBIT << 1u64) == 0
        invariant
            3 <= ufrac < 0x40000000000000,
            fp.exp - 53 <= uexp <= fp.exp - 1,
            i32::MIN + 64 <= fp.exp,
            1 <= fp.frac < 0x20000000000000,
            ufrac == (2 * fp.frac + 1) * pow2((fp.exp - 1 - uexp) as nat),
        decreases 0x40000000000000 - ufrac,
    {
        proof {
            assert((HIDDENBIT << 1u64) == 0x0020000000000000) by (bit_vector);
            lemma_below_hidden2(ufrac);
            lemma2_to64();
            lemma2_to64_rest();
            let s = (fp.exp - 1 - uexp) as nat;
            lemma_pow2_adds(s, 1);
            let m = (2 * fp.frac + 1) as int;
            let p = pow2(s) as int;
            assert(m * p * 2 == m * (p * 2)) by (nonlinear_arith);
            lemma_u64_shl_is_mul(ufrac, 1);
            assert(ufrac >= 3 * pow2(s)) by {
                lemma_pow2_pos(s);
                lemma_mul_inequality(3, m, pow2(s) as int);
            }
            if uexp == fp.exp - 53 {
                assert(pow2(52) == 0x10000000000000);
                assert(false);
            }
        }
        ufrac = ufrac << 1u64;
        uexp = uexp - 1;
    }
    proof {
        assert((HIDDENBIT << 1u64) == 0x0020000000000000) by (bit_vector);
        lemma_below_hidden2(ufrac);
        let s = (fp.exp - 1 - uexp) as nat;
        lemma_pow2_adds(s, 10);
        let m = (2 * fp.frac + 1) as int;
        let p = pow2(s) as int;
        let q = pow2(10) as int;
        assert(m * p * q == m * (p * q)) by (nonlinear_arith);
        lemma_u64_shl_is_mul(ufrac, 10);
        assert(ufrac * pow2(10) >= 0x0020000000000000 * 0x400) by {
            lemma_mul_inequality(0x0020000000000000, ufrac as int, 0x400);
        }
        assert(ufrac * pow2(10) < 0x40000000000000 * 0x400) by {
            lemma_mul_strict_inequality(ufrac as int, 0x40000000000000, 0x400);
        }
    }
    ufrac = ufrac << 10u64;
    uexp = uexp - 10;

    let lsh: u64 = if fp.frac == HIDDENBIT {
        2
    } else {
        1
    };
    proof {
        lemma2_to64();
        assert(pow2(1) == 2 && pow2(2) == 4);
        lemma_u64_shl_is_mul(fp.frac, lsh);
    }
    let lfrac0: u64 = (fp.frac << lsh) - 1;
    let lexp0: i32 = fp.exp - (lsh as i32);
    proof {
        assert(lfrac0 == low_mant(*fp));
        assert(lexp0 == fp.exp - low_off(*fp));
    }
    let d: i32 = lexp0 - uexp;
    proof {
        let su = (fp.exp - 1 - uexp) as nat;
        let doff = (lexp0 - uexp) as nat;
        assert(doff + (low_off(*fp) - 1) == su);
        lemma_pow2_adds(doff, (low_off(*fp) - 1) as nat);
        // the shifted lower boundary stays strictly below the upper boundary
        let lm = low_mant(*fp) as int;
        let um = (2 * fp.frac + 1) as int;
        let pd = pow2(doff) as int;
        lemma_pow2_pos(doff);
        if fp.frac == HIDDENBIT {
            // lm * pd vs um * (pd * 2): lm < 2 * um
            assert(lm < 2 * um);
            assert(lm * pd < (2 * um) * pd) by (nonlinear_arith)
                requires lm < 2 * um, pd > 0;
            assert((2 * um) * pd == um * (2 * pd)) by (nonlinear_arith);
            assert(pow2(su) == pd * 2);
        } else {
            assert(lm < um);
            assert(lm * pd < um * pd) by (nonlinear_arith)
                requires lm < um, pd > 0;
            assert(pow2(su) == pd);
        }
        assert(lfrac0 * pow2(doff) < ufrac);
        assert(lfrac0 * pow2(doff) >= 1) by {
            lemma_mul_inequality(1, lfrac0 as int, pow2(doff) as int);
        }
        lemma_u64_shl_is_mul(lfrac0, d as u64);
    }
    let lfrac: u64 = lfrac0 << (d as u64);
    lower.frac = lfrac;
    lower.exp = uexp;
    upper.frac = ufrac;
    upper.exp = uexp;
}

/// The significand produced by multiplying two extended-precision values:
/// the high 64-bit word of the 128-bit product, rounded to nearest by a
/// half-unit bias added below the cut.
pub open spec fn mul_hi(x: u64, y: u64) -> int {
    (x * y / 0x100000000 + 0x80000000) / 0x100000000
}

/// Multiply two extended-precision values.  The significand is the
/// rounded high word of the full product; the exponent gains the 64 bits
/// dropped from the low end of the product.
pub fn multiply(a: &FloatType, b: &FloatType) -> (r: FloatType)
    requires
        i32::MIN <= a.exp + b.exp,
        a.exp + b.exp + 64 <= i32::MAX,
    ensures
        r.frac == mul_hi(a.frac, b.frac),
        r.exp == a.exp + b.exp + 64,
        mul_hi(a.frac, b.frac) <= 0xFFFFFFFFFFFFFFFE,
{
    let lomask: u64 = 0xFFFFFFFF;
    proof {
        lemma2_to64();
        lemma2_to64_rest();
        lemma_low_bits_mask_values();
        lemma_u64_shr_is_div(a.frac, 32);
        lemma_u64_shr_is_div(b.frac, 32);
        lemma_u64_low_bits_mask_is_mod(a.frac, 32);
        lemma_u64_low_bits_mask_is_mod(b.frac, 32);
        lemma_mod_division_less_than_divisor(a.frac as int, 0x100000000);
        lemma_mod_division_less_than_divisor(b.frac as int, 0x100000000);
        lemma_div_is_ordered(a.frac as int, 0xFFFFFFFFFFFFFFFF, 0x100000000);
        lemma_div_is_ordered(b.frac as int, 0xFFFFFFFFFFFFFFFF, 0x100000000);
    }
    let ah: u64 = a.frac >> 32u64;
    let al: u64 = a.frac & lomask;
    let bh: u64 = b.frac >> 32u64;
    let bl: u64 = b.frac & lomask;
    proof {
        lemma_fundamental_div_mod(a.frac as int, 0x100000000);
        lemma_fundamental_div_mod(b.frac as int, 0x100000000);
        assert(ah <= 0xFFFFFFFF && al <= 0xFFFFFFFF && bh <= 0xFFFFFFFF && bl <= 0xFFFFFFFF);
        let c: int = 0xFFFFFFFF;
        assert(ah * bl <= c * c && al * bh <= c * c && al * bl <= c * c && ah * bh <= c * c)
            by (nonlinear_arith)
            requires 0 <= ah <= c, 0 <= al <= c, 0 <= bh <= c, 0 <= bl <= c;
    }
    let ah_bl: u64 = ah * bl;
    let al_bh: u64 = al * bh;
    let al_bl: u64 = al * bl;
    let ah_bh: u64 = ah * bh;
    proof {
        lemma_u64_shr_is_div(al_bl, 32);
        lemma_u64_low_bits_mask_is_mod(ah_bl, 32);
        lemma_u64_low_bits_mask_is_mod(al_bh, 32);
        lemma_mod_division_less_than_divisor(ah_bl as int, 0x100000000);
        lemma_mod_division_less_than_divisor(al_bh as int, 0x100000000);
        lemma_div_is_ordered(al_bl as int, 0xFFFFFFFFint * 0xFFFFFFFFint, 0x100000000);
    }
    let mut tmp: u64 = (ah_bl & lomask) + (al_bh & lomask) + (al_bl >> 32u64);
    tmp = tmp + 0x80000000;
    let ghost sum: int = mul_hi(a.frac, b.frac);
    proof {
        lemma_u64_shr_is_div(ah_bl, 32);
        lemma_u64_shr_is_div(al_bh, 32);
        lemma_u64_shr_is_div(tmp, 32);
        let af = a.frac as int;
        let bf = b.frac as int;
        let ahi = ah as int;
        let alo = al as int;
        let bhi = bh as int;
        let blo = bl as int;
        let d: int = 0x100000000;
        let p: int = af * bf;
        assert(p == (ahi * bhi) * (d * d) + (ahi * blo + alo * bhi) * d + alo * blo)
            by (nonlinear_arith)
            requires p == af * bf, af == ahi * d + alo, bf == bhi * d + blo, d == 0x100000000;
        let x: int = (ahi * bhi) * d + ahi * blo + alo * bhi;
        assert(p == x * d + alo * blo) by (nonlinear_arith)
            requires
                p == (ahi * bhi) * (d * d) + (ahi * blo + alo * bhi) * d + alo * blo,
                x == (ahi * bhi) * d + ahi * blo + alo * bhi,
                d == 0x100000000;
        lemma_hoist_over_denominator(alo * blo, x, 0x100000000);
        assert(p / d == x + (al_bl >> 32u64));
        // split the two cross products into their halves
        lemma_fundamental_div_mod(ah_bl as int, 0x100000000);
        lemma_fundamental_div_mod(al_bh as int, 0x100000000);
        let y: int = ah_bh + (ah_bl >> 32u64) + (al_bh >> 32u64);
        assert(p / d + 0x80000000 == y * d + tmp) by (nonlinear_arith)
            requires
                p / d == x + (al_bl >> 32u64),
                x == (ahi * bhi) * d + ahi * blo + alo * bhi,
                ah_bh == ahi * bhi,
                ahi * blo == (ah_bl >> 32u64) * d + (ah_bl & 0xFFFFFFFFu64),
                alo * bhi == (al_bh >> 32u64) * d + (al_bh & 0xFFFFFFFFu64),
                tmp == (ah_bl & 0xFFFFFFFFu64) + (al_bh & 0xFFFFFFFFu64) + (al_bl >> 32u64) + 0x80000000,
                y == ah_bh + (ah_bl >> 32u64) + (al_bh >> 32u64),
                d == 0x100000000;
        lemma_hoist_over_denominator(tmp as int, y, 0x100000000);
        assert(sum == y + (tmp >> 32u64));
        // global bound on the rounded high word
        let c: int = 0xFFFFFFFFFFFFFFFF;
        assert(p <= c * c) by (nonlinear_arith)
            requires p == af * bf, 0 <= af <= c, 0 <= bf <= c;
        lemma_div_is_ordered(p, c * c, d);
        assert(c * c / d == 0xFFFFFFFFFFFFFFFE00000000);
        lemma_div_is_ordered(p / d + 0x80000000, 0xFFFFFFFFFFFFFFFE80000000, d);
        assert(sum <= 0xFFFFFFFFFFFFFFFE);
    }
    let hi: u64 = ah_bh + (ah_bl >> 32u64) + (al_bh >> 32u64) + (tmp >> 32u64);
    FloatType { frac: hi, exp: a.exp + b.exp + 64 }
}

} // verus!
