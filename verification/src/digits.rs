//! The two-phase digit generator: it produces the minimal decimal digit
//! sequence consistent with the error interval between the two boundary
//! midpoints, then applies a final rounding correction that moves the
//! last digit as close to the true value as the interval allows.

use vstd::arithmetic::div_mod::{lemma_div_is_ordered, lemma_fundamental_div_mod, lemma_mod_division_less_than_divisor, lemma_multiply_divide_lt};
use vstd::arithmetic::power2::{lemma2_to64, lemma2_to64_rest, lemma_pow2_adds, lemma_pow2_pos, lemma_pow2_strictly_increases, pow2};
use vstd::bits::{lemma_u64_low_bits_mask_is_mod, lemma_u64_shl_is_mul, lemma_u64_shr_is_div};
use vstd::prelude::*;

use crate::extended::{build_fp, get_normalized_boundaries, low_mant, low_off, mul_hi, multiply, normalize, spec_build_fp, FloatType, HIDDENBIT};
use crate::table::{find_cachedpow10, pow10_exp, pow10_frac, EXPMAX, EXPMIN, FIRSTPOWER};

verus! {

/// Ten raised to the power `n`.
pub open spec fn pow10(n: nat) -> nat
    decreases n,
{
    if n == 0 {
        1
    } else {
        10 * pow10((n - 1) as nat)
    }
}

/// The concrete values of the first twenty-one powers of ten.
pub proof fn lemma_pow10_values()
    ensures
        pow10(0) == 1,
        pow10(1) == 10,
        pow10(2) == 100,
        pow10(3) == 1000,
        pow10(4) == 10000,
        pow10(5) == 100000,
        pow10(6) == 1000000,
        pow10(7) == 10000000,
        pow10(8) == 100000000,
        pow10(9) == 1000000000,
        pow10(10) == 10000000000,
        pow10(11) == 100000000000,
        pow10(12) == 1000000000000,
        pow10(13) == 10000000000000,
        pow10(14) == 100000000000000,
        pow10(15) == 1000000000000000,
        pow10(16) == 10000000000000000,
        pow10(17) == 100000000000000000,
        pow10(18) == 1000000000000000000,
        pow10(19) == 10000000000000000000,
        pow10(20) == 100000000000000000000,
{
    assert(pow10(0) == 1);
    assert(pow10(1) == 10);
    assert(pow10(2) == 100);
    assert(pow10(3) == 1000);
    assert(pow10(4) == 10000);
    assert(pow10(5) == 100000);
    assert(pow10(6) == 1000000);
    assert(pow10(7) == 10000000);
    assert(pow10(8) == 100000000);
    assert(pow10(9) == 1000000000);
    assert(pow10(10) == 10000000000);
    assert(pow10(11) == 100000000000);
    assert(pow10(12) == 1000000000000);
    assert(pow10(13) == 10000000000000);
    assert(pow10(14) == 100000000000000);
    assert(pow10(15) == 1000000000000000);
    assert(pow10(16) == 10000000000000000);
    assert(pow10(17) == 100000000000000000);
    assert(pow10(18) == 1000000000000000000);
    assert(pow10(19) == 10000000000000000000);
    assert(pow10(20) == 100000000000000000000);
}

/// Descending powers of ten: entry `i` is `10^(19 - i)`.
fn tens_at(i: usize) -> (r: u64)
    requires
        i < 20,
    ensures
        r as nat == pow10((19 - i) as nat),
{
    proof {
        lemma_pow10_values();
    }
    if i == 0 {
        10000000000000000000
    } else if i == 1 {
        1000000000000000000
    } else if i == 2 {
        100000000000000000
    } else if i == 3 {
        10000000000000000
    } else if i == 4 {
        1000000000000000
    } else if i == 5 {
        100000000000000
    } else if i == 6 {
        10000000000000
    } else if i == 7 {
        1000000000000
    } else if i == 8 {
        100000000000
    } else if i == 9 {
        10000000000
    } else if i == 10 {
        1000000000
    } else if i == 11 {
        100000000
    } else if i == 12 {
        10000000
    } else if i == 13 {
        1000000
    } else if i == 14 {
        100000
    } else if i == 15 {
        10000
    } else if i == 16 {
        1000
    } else if i == 17 {
        100
    } else if i == 18 {
        10
    } else {
        1
    }
}

/// Ten to any power is at least one.
pub proof fn lemma_pow10_pos(n: nat)
    ensures
        pow10(n) >= 1,
    decreases n,
{
    if n > 0 {
        lemma_pow10_pos((n - 1) as nat);
    }
}

/// Powers of ten multiply by adding exponents.
pub proof fn lemma_pow10_adds(a: nat, b: nat)
    ensures
        pow10(a + b) == pow10(a) * pow10(b),
    decreases a,
{
    if a == 0 {
        let pb: int = pow10(b) as int;
        assert(1 * pb == pb) by (nonlinear_arith);
    } else {
        lemma_pow10_adds((a - 1) as nat, b);
        let pa1: int = pow10((a - 1) as nat) as int;
        let pb: int = pow10(b) as int;
        assert((a + b - 1) as nat == (a - 1) as nat + b);
        assert(pow10(a + b) == 10 * pow10((a + b - 1) as nat));
        assert(pow10((a + b - 1) as nat) == pa1 * pb);
        assert(10 * (pa1 * pb) == (10 * pa1) * pb) by (nonlinear_arith);
        assert(pow10(a) == 10 * pa1);
    }
}

/// Ten to a higher power is no smaller.
pub proof fn lemma_pow10_increases(a: nat, b: nat)
    requires
        a <= b,
    ensures
        pow10(a) <= pow10(b),
    decreases b,
{
    if a < b {
        lemma_pow10_increases(a, (b - 1) as nat);
    }
}

/// The integer a sequence of ASCII decimal digit bytes denotes.
pub open spec fn digits_val(s: Seq<u8>) -> int
    decreases s.len(),
{
    if s.len() == 0 {
        0
    } else {
        digits_val(s.drop_last()) * 10 + (s.last() - 48)
    }
}

/// Every byte of `s` is an ASCII decimal digit.
pub open spec fn all_decimal(s: Seq<u8>) -> bool {
    forall|i: int| 0 <= i < s.len() ==> 48 <= #[trigger] s[i] <= 57
}

/// A sequence of decimal digit bytes denotes a number, never a negative
/// value.
pub proof fn lemma_digits_val_nonneg(s: Seq<u8>)
    requires
        all_decimal(s),
    ensures
        digits_val(s) >= 0,
    decreases s.len(),
{
    if s.len() > 0 {
        assert(all_decimal(s.drop_last()));
        lemma_digits_val_nonneg(s.drop_last());
    }
}

/// Move the last generated digit down while the remainder stays below
/// the distance from the upper boundary to the true value, the error
/// budget still covers one more unit of the last place, and the step
/// brings the digit sequence strictly closer to the true value (ties
/// favour the smaller digit).
///
/// The caller guarantees that the whole remaining error budget spans at
/// most the value of the last digit, so the digit never wraps below `0`.
pub fn round_digit(digits: &mut Vec<u8>, delta: u64, rem: u64, kappa: u64, frac: u64)
    requires
        old(digits).len() >= 1,
        rem <= delta,
        1 <= kappa,
        48 <= old(digits)[old(digits).len() - 1] <= 57,
        delta - rem <= (old(digits)[old(digits).len() - 1] - 48) * kappa,
    ensures
        final(digits).len() == old(digits).len(),
        forall|i: int| 0 <= i < old(digits).len() - 1
            ==> final(digits)[i] == #[trigger] old(digits)[i],
        48 <= final(digits)[old(digits).len() - 1] <= old(digits)[old(digits).len() - 1],
        digits_val(final(digits)@) == digits_val(old(digits)@) - (old(digits)[old(
            digits,
        ).len() - 1] - final(digits)[old(digits).len() - 1]),
        rem + (old(digits)[old(digits).len() - 1] - final(digits)[old(digits).len() - 1]) * kappa
            <= delta,
        ({
            // the correction stops exactly when no further step is allowed,
            // and every step taken, the last one included, was allowed
            let jd = old(digits)[old(digits).len() - 1] - final(digits)[old(digits).len() - 1];
            let fr = rem + jd * kappa;
            let pr = rem + (jd - 1) * kappa;
            &&& !(fr < frac && delta - fr >= kappa && (fr + kappa < frac || frac - fr > fr
                + kappa - frac))
            &&& (jd > 0 ==> (pr < frac && delta - pr >= kappa && (pr + kappa < frac || frac
                - pr > pr + kappa - frac)))
        }),
        delta - rem < (old(digits)[old(digits).len() - 1] - 48) * kappa ==> final(digits)[old(
            digits,
        ).len() - 1] >= 49,
{
    let n: usize = digits.len();
    let mut r: u64 = rem;
    while r < frac && delta - r >= kappa && (r + kappa < frac || frac - r > r + kappa - frac)
        invariant
            digits.len() == n == old(digits).len(),
            n >= 1,
            rem <= r <= delta,
            1 <= kappa,
            forall|i: int| 0 <= i < n - 1 ==> digits[i] == #[trigger] old(digits)[i],
            48 <= digits[n - 1] <= old(digits)[n - 1] <= 57,
            delta - r <= (digits[n - 1] - 48) * kappa,
            digits_val(digits@) == digits_val(old(digits)@) - (old(digits)[n - 1] - digits[n
                - 1]),
            r == rem + (old(digits)[n - 1] - digits[n - 1]) * kappa,
            ({
                let jd = old(digits)[n - 1] - digits[n - 1];
                let pr = rem + (jd - 1) * kappa;
                jd > 0 ==> (pr < frac && delta - pr >= kappa && (pr + kappa < frac || frac - pr
                    > pr + kappa - frac))
            }),
        decreases delta - r,
    {
        let d: u8 = digits[n - 1];
        proof {
            let dv = (d - 48) as int;
            assert(dv >= 1) by (nonlinear_arith)
                requires
                    delta - r >= kappa,
                    delta - r <= dv * kappa,
                    kappa >= 1,
                    dv >= 0;
            assert((dv - 1) * kappa == dv * kappa - kappa) by (nonlinear_arith);
        }
        let ghost pre: Seq<u8> = digits@;
        let ghost jd: int = old(digits)[n - 1] - pre[n - 1];
        digits[n - 1] = d - 1;
        proof {
            assert(digits@.drop_last() =~= pre.drop_last());
            assert(digits_val(digits@) == digits_val(pre) - 1);
            assert((jd + 1) * kappa == jd * kappa + kappa) by (nonlinear_arith);
        }
        r = r + kappa;
    }
    proof {
        let d0: int = old(digits)[n - 1] as int;
        let jd: int = d0 - digits[n - 1];
        if delta - rem < (d0 - 48) * kappa {
            assert(jd < d0 - 48) by (nonlinear_arith)
                requires
                    jd * kappa <= delta - rem,
                    delta - rem < (d0 - 48) * kappa,
                    kappa >= 1,
                    jd >= 0;
        }
    }
}

/// Generate the decimal digits of the scaled value: walk the integer part
/// of the upper boundary through descending powers of ten, then continue
/// into the fraction, stopping as soon as the remaining error falls
/// inside the boundary interval, and round the last digit.  Adds to `k`
/// the decimal weight of the last digit produced.
///
/// The required interval width is what scaling leaves of the one-unit
/// gap between a 53-bit significand and its neighbours; it caps the
/// digit count at the eighteen places such a significand can need.
pub fn generate_digits(
    fp: &FloatType,
    upper: &FloatType,
    lower: &FloatType,
    digits: &mut Vec<u8>,
    k: &mut i32,
) -> (n: usize)
    requires
        old(digits).len() == 0,
        fp.exp == upper.exp,
        lower.exp == upper.exp,
        EXPMIN <= upper.exp <= EXPMAX,
        1 <= lower.frac,
        lower.frac <= fp.frac <= upper.frac,
        lower.frac < upper.frac,
        765 <= upper.frac - lower.frac,
        -400 <= *old(k) <= 400,
    ensures
        n == final(digits).len(),
        1 <= n <= 18,
        all_decimal(final(digits)@),
        final(digits)@[0] >= 49,
        *old(k) - 19 <= *final(k) <= *old(k) + 9,
        ({
            // the digits, weighted by ten to the power the call added to
            // `k`, denote a value inside the boundary interval
            let kap = *final(k) - *old(k);
            let dvv = digits_val(final(digits)@);
            let eu = (-(upper.exp)) as nat;
            &&& (kap >= 0 ==> lower.frac <= dvv * (pow10(kap as nat) * pow2(eu))
                <= upper.frac)
            &&& (kap < 0 ==> lower.frac * pow10((-kap) as nat) <= dvv * pow2(eu)
                <= upper.frac * pow10((-kap) as nat))
        }),
{
    let wfrac: u64 = upper.frac - fp.frac;
    let mut delta: u64 = upper.frac - lower.frac;
    let e: u64 = (-(upper.exp)) as u64;
    proof {
        lemma2_to64();
        lemma2_to64_rest();
        vstd::arithmetic::power2::lemma_pow2_strictly_increases(31, e as nat);
        if e < 60 {
            vstd::arithmetic::power2::lemma_pow2_strictly_increases(e as nat, 60);
        }
        lemma_u64_shl_is_mul(1u64, e);
    }
    let one = FloatType { frac: 1u64 << e, exp: upper.exp };
    let ghost pe: int = pow2(e as nat) as int;
    proof {
        assert(one.frac == pe);
        assert(0x100000000 <= pe <= 0x1000000000000000);
        lemma_u64_shr_is_div(upper.frac, e);
        lemma_u64_low_bits_mask_is_mod(upper.frac, e as nat);
        lemma_fundamental_div_mod(upper.frac as int, pe);
    }
    let mut part1: u64 = upper.frac >> e;
    let mut part2: u64 = upper.frac & (one.frac - 1);
    proof {
        assert(part1 == upper.frac as int / pe);
        assert(part2 == upper.frac as int % pe);
        assert(upper.frac == pe * part1 + part2);
        assert(pe * part1 == part1 * pe) by (nonlinear_arith);
        assert(upper.frac == part1 * pe + part2);
        assert(part1 < 0x100000000) by (nonlinear_arith)
            requires
                part1 * pe + part2 == upper.frac,
                upper.frac <= 0xFFFFFFFFFFFFFFFF,
                pe >= 0x100000000,
                part2 >= 0,
                part1 >= 0;
        lemma_pow10_values();
    }
    let ghost p2_0: u64 = part2;
    let mut kappa: i32 = 10;
    while kappa > 0
        invariant
            0 < one.frac == pe == pow2(e as nat),
            0x100000000 <= pe <= 0x1000000000000000,
            32 <= e <= 60,
            e as int == -(upper.exp as int),
            0 <= kappa <= 10,
            digits.len() as int <= 10 - kappa,
            all_decimal(digits@),
            digits.len() == 0 <==> digits_val(digits@) == 0,
            digits_val(digits@) >= 0,
            digits.len() >= 1 ==> digits@[0] >= 49,
            digits.len() >= 1 ==> digits_val(digits@) >= pow10((digits.len() - 1) as nat),
            part2 == p2_0 < pe,
            part1 < pow10(kappa as nat),
            upper.frac as int == digits_val(digits@) * (pow10(kappa as nat) * pe) + part1 * pe
                + part2,
            digits.len() >= 1 ==> part1 * pe + part2 > delta,
            delta == upper.frac - lower.frac,
            wfrac == upper.frac - fp.frac,
            1 <= lower.frac,
            lower.frac <= fp.frac <= upper.frac,
            lower.frac < upper.frac,
            -400 <= *old(k) <= 400,
            *k == *old(k),
        decreases kappa,
    {
        let div: u64 = tens_at((20 - kappa) as usize);
        proof {
            lemma_pow10_values();
            assert(pow10(kappa as nat) == 10 * pow10((kappa - 1) as nat));
            assert(div as int == pow10((kappa - 1) as nat));
            assert(part1 < div * 10);
            lemma_multiply_divide_lt(part1 as int, div as int, 10);
            lemma_fundamental_div_mod(part1 as int, div as int);
            lemma_mod_division_less_than_divisor(part1 as int, div as int);
        }
        let digit: u64 = part1 / div;
        proof {
            assert(part1 as int == div as int * digit as int + part1 as int % div as int);
            assert(div * digit == digit * div) by (nonlinear_arith);
        }
        let ghost len_pre: int = digits.len() as int;
        let ghost dv_pre: int = digits_val(digits@);
        let ghost ds_pre: Seq<u8> = digits@;
        if digit != 0 || digits.len() != 0 {
            digits.push((digit as u8) + 48);
            proof {
                assert(digits@.drop_last() =~= ds_pre);
                assert(digits_val(digits@) == dv_pre * 10 + digit);
                if len_pre >= 1 {
                    assert(pow10(len_pre as nat) == 10 * pow10((len_pre - 1) as nat));
                    assert(dv_pre * 10 + digit >= pow10(len_pre as nat)) by (nonlinear_arith)
                        requires
                            dv_pre >= pow10((len_pre - 1) as nat),
                            pow10(len_pre as nat) == 10 * pow10((len_pre - 1) as nat),
                            digit >= 0;
                }
            }
        }
        proof {
            assert(digit * div <= part1 && part1 - digit * div < div);
        }
        part1 = part1 - digit * div;
        kappa = kappa - 1;
        proof {
            // the decomposition of the upper boundary at the new position
            let dv: int = digits_val(digits@);
            let p1n: int = part1 as int;
            let p1pre: int = digit * div + part1;
            let dg: int = digit as int;
            let dd: int = div as int;
            let uf: int = upper.frac as int;
            let m: int = dd * pe;
            assert(dv == dv_pre * 10 + dg);
            assert(dv_pre * ((10 * dd) * pe) == (dv_pre * 10) * m) by (nonlinear_arith)
                requires m == dd * pe;
            assert(p1pre * pe == dg * m + p1n * pe) by (nonlinear_arith)
                requires m == dd * pe, p1pre == dg * dd + p1n;
            assert(dv * m == (dv_pre * 10) * m + dg * m) by (nonlinear_arith)
                requires dv == dv_pre * 10 + dg;
            assert(uf == dv * m + p1n * pe + part2);
            assert(m >= 0) by (nonlinear_arith)
                requires m == dd * pe, dd >= 1, pe >= 1;
            assert(dv * m >= 0) by (nonlinear_arith)
                requires dv >= 0, m >= 0;
            assert(p1n * pe + part2 <= uf);
            lemma_u64_shl_is_mul(part1, e);
        }
        let tmp: u64 = (part1 << e) + part2;
        if tmp <= delta {
            *k = *k + kappa;
            proof {
                let dv: int = digits_val(digits@);
                let dg: int = digit as int;
                let dd: int = div as int;
                let uf: int = upper.frac as int;
                let m: int = dd * pe;
                assert(m >= 1) by (nonlinear_arith)
                    requires m == dd * pe, dd >= 1, pe >= 1;
                if digits.len() == 0 {
                    // no digits at all would mean the whole boundary fits
                    // below the interval width, impossible with a positive
                    // lower boundary
                    assert(dv == 0 && dg == 0);
                    assert(dv * m == 0) by (nonlinear_arith)
                        requires dv == 0;
                    assert(uf == tmp);
                    assert(false);
                }
                if len_pre == 0 {
                    // first digit emitted this very step
                    assert(dg >= 1 && dv == dg);
                    assert(delta - tmp < dg * m) by (nonlinear_arith)
                        requires
                            uf == dv * m + tmp,
                            dv == dg,
                            delta <= uf - 1,
                            dg >= 1,
                            m >= 1;
                } else {
                    // the check failed one position earlier
                    assert((dg * dd + part1) * pe + part2 > delta);
                    assert(delta - tmp < dg * m) by (nonlinear_arith)
                        requires
                            (dg * dd + part1) * pe + part2 > delta,
                            tmp == part1 * pe + part2,
                            m == dd * pe;
                }
                assert(dv >= 1);
                assert(m <= uf) by (nonlinear_arith)
                    requires
                        uf == dv * m + tmp,
                        dv >= 1,
                        tmp >= 0,
                        m >= 1;
                lemma_u64_shl_is_mul(div, e);
                assert(digits@.last() == digit + 48);
                assert((digits@[digits@.len() - 1] - 48) * ((div << e) as int) == dg * m);
            }
            let ghost pre_round: Seq<u8> = digits@;
            let ghost dv_r: int = digits_val(digits@);
            round_digit(digits, delta, tmp, div << e, wfrac);
            proof {
                assert forall|i: int| 0 <= i < digits@.len() implies 48 <= #[trigger] digits@[i]
                    <= 57 by {
                    assert(48 <= pre_round[i] <= 57);
                }
                let jd: int = pre_round[pre_round.len() - 1] - digits@[digits@.len() - 1];
                let dvf: int = digits_val(digits@);
                let m: int = div as int * pe;
                assert(dvf == dv_r - jd);
                assert(tmp + jd * m <= delta);
                assert(jd * m >= 0) by (nonlinear_arith)
                    requires jd >= 0, m >= 0;
                assert(dvf * m == dv_r * m - jd * m) by (nonlinear_arith)
                    requires dvf == dv_r - jd;
                assert(dv_r * m == upper.frac - tmp);
                assert(lower.frac <= dvf * m <= upper.frac);
                assert(div as int == pow10(kappa as nat));
                assert(e as nat == (-(upper.exp)) as nat);
                // the leading digit survives the correction: either it is
                // not the last byte, or the strict budget keeps it nonzero
                if digits@.len() >= 2 {
                    assert(digits@[0] == pre_round[0]);
                } else {
                    assert(digits@[0] == digits@[digits@.len() - 1]);
                }
                assert(digits@[0] >= 49);
            }
            return digits.len();
        }
    }
    proof {
        lemma_pow10_values();
        assert(part1 == 0);
        if digits.len() == 0 {
            assert(upper.frac as int == digits_val(digits@) * (pow10(0) * pe) + part2);
            assert(part2 > delta) by (nonlinear_arith)
                requires
                    upper.frac as int == part2,
                    delta <= upper.frac - 1;
        }
    }
    proof {
        lemma_pow10_values();
        let wf: int = wfrac as int;
        let p0: int = pow10(0) as int;
        assert(wf * p0 == wf) by (nonlinear_arith)
            requires p0 == 1;
        let dv0: int = digits_val(digits@);
        let uf: int = upper.frac as int;
        let lf: int = lower.frac as int;
        assert(dv0 * (p0 * pe) == dv0 * pe) by (nonlinear_arith)
            requires p0 == 1;
        assert(uf * p0 == uf) by (nonlinear_arith)
            requires p0 == 1;
        assert((uf - lf) * p0 == uf - lf) by (nonlinear_arith)
            requires p0 == 1;
        assert(uf * pow10(0) == dv0 * pe + part2);
        assert(delta as int == (upper.frac - lower.frac) * pow10(0));
        if digits.len() >= 1 {
            assert(uf >= pow10((digits.len() - 1) as nat) * pe) by (nonlinear_arith)
                requires
                    uf == dv0 * pe + part2,
                    dv0 >= pow10((digits.len() - 1) as nat),
                    part2 >= 0,
                    pe >= 1;
        }
    }
    let ghost n1: int = digits.len() as int;
    let mut unit_idx: usize = 18;
    loop
        invariant
            0 < one.frac == pe == pow2(e as nat),
            0x100000000 <= pe <= 0x1000000000000000,
            32 <= e <= 60,
            e as int == -(upper.exp as int),
            -18 <= kappa <= 0,
            unit_idx as int == 18 + kappa,
            part2 >= delta,
            1 <= delta,
            part2 < pe,
            delta as int >= pow10((-kappa) as nat),
            wfrac as int * pow10((-kappa) as nat) <= delta,
            all_decimal(digits@),
            digits.len() as int <= 10 - kappa,
            0 <= n1 <= 10,
            digits.len() as int <= n1 + (-kappa),
            n1 >= 1 ==> upper.frac as int >= pow10((n1 - 1) as nat) * pe,
            digits.len() >= 1 ==> digits@[0] >= 49,
            digits_val(digits@) >= 0,
            upper.frac as int * pow10((-kappa) as nat) == digits_val(digits@) * pe + part2,
            delta as int == (upper.frac - lower.frac) * pow10((-kappa) as nat),
            1 <= lower.frac,
            lower.frac < upper.frac,
            765 <= upper.frac - lower.frac,
            -400 <= *old(k) <= 400,
            *k == *old(k),
        decreases 19 + kappa,
    {
        proof {
            lemma_pow10_values();
        }
        let ghost p2top: u64 = part2;
        part2 = part2 * 10;
        delta = delta * 10;
        kappa = kappa - 1;
        proof {
            // a nineteenth fractional digit would need an interval wider
            // than the whole scaled fraction space
            assert(delta as int >= 10 * pow10((-kappa - 1) as nat));
            assert(pow10((-kappa) as nat) == 10 * pow10((-kappa - 1) as nat));
            let wf: int = wfrac as int;
            let pk: int = pow10((-kappa - 1) as nat) as int;
            assert(wf * (10 * pk) == 10 * (wf * pk)) by (nonlinear_arith);
            lemma_u64_shr_is_div(part2, e);
            assert(part2 < pe * 10);
            lemma_multiply_divide_lt(part2 as int, pe, 10);
            lemma_u64_low_bits_mask_is_mod(part2, e as nat);
            lemma_fundamental_div_mod(part2 as int, pe);
        }
        let digit: u64 = part2 >> e;
        let ghost p2x: u64 = part2;
        let ghost dv_pre2: int = digits_val(digits@);
        let ghost ds_pre2: Seq<u8> = digits@;
        if digit != 0 || digits.len() != 0 {
            digits.push((digit as u8) + 48);
            proof {
                assert(digits@.drop_last() =~= ds_pre2);
            }
        }
        proof {
            assert((one.frac - 1) as nat == vstd::bits::low_bits_mask(e as nat));
        }
        part2 = part2 & (one.frac - 1);
        proof {
            assert(part2 == p2x as int % pe);
            assert(digit == p2x as int / pe);
            assert(p2x as int == pe * digit + part2);
            // the scaled decomposition absorbs the new digit
            let dvn: int = digits_val(digits@);
            let dg: int = digit as int;
            let uf: int = upper.frac as int;
            let lf: int = lower.frac as int;
            let jo: int = pow10((-kappa - 1) as nat) as int;
            let jn: int = pow10((-kappa) as nat) as int;
            assert(dvn == dv_pre2 * 10 + dg);
            assert(uf * jn == (uf * jo) * 10) by (nonlinear_arith)
                requires jn == 10 * jo;
            assert((dv_pre2 * pe + p2top) * 10 == (dv_pre2 * 10) * pe + p2top * 10)
                by (nonlinear_arith);
            assert(pe * dg == dg * pe) by (nonlinear_arith);
            assert(dvn * pe == (dv_pre2 * 10) * pe + dg * pe) by (nonlinear_arith)
                requires dvn == dv_pre2 * 10 + dg;
            assert(uf * jn == dvn * pe + part2);
            assert((uf - lf) * jn == ((uf - lf) * jo) * 10) by (nonlinear_arith)
                requires jn == 10 * jo;
        }
        if part2 < delta {
            *k = *k + kappa;
            proof {
                if digit == 0 {
                    assert(pe * digit == 0) by (nonlinear_arith)
                        requires digit == 0;
                    assert(part2 == p2x);
                    assert(false);
                }
                assert(digits@.last() == digit + 48);
                // the pre-mask fraction was at least the widened interval
                assert(delta - part2 <= (digit as int) * pe) by (nonlinear_arith)
                    requires
                        p2x as int == pe * (digit as int) + part2,
                        p2x >= delta;
                assert((digits@[digits@.len() - 1] - 48) * (one.frac as int) == (digit as int)
                    * pe);
                assert(wfrac as int * pow10((-kappa) as nat) <= delta);
            }
            let fr: u64 = wfrac * tens_at(unit_idx);
            let ghost pre_round: Seq<u8> = digits@;
            let ghost dv_r2: int = digits_val(digits@);
            round_digit(digits, delta, part2, one.frac, fr);
            proof {
                assert forall|i: int| 0 <= i < digits@.len() implies 48 <= #[trigger] digits@[i]
                    <= 57 by {
                    assert(48 <= pre_round[i] <= 57);
                }
                let jd: int = pre_round[pre_round.len() - 1] - digits@[digits@.len() - 1];
                let dvf: int = digits_val(digits@);
                let uf: int = upper.frac as int;
                let lf: int = lower.frac as int;
                let pj: int = pow10((-kappa) as nat) as int;
                assert(dvf == dv_r2 - jd);
                assert(part2 + jd * (one.frac as int) <= delta);
                assert(jd * pe >= 0) by (nonlinear_arith)
                    requires jd >= 0, pe >= 0;
                assert(dvf * pe == dv_r2 * pe - jd * pe) by (nonlinear_arith)
                    requires dvf == dv_r2 - jd;
                assert(dv_r2 * pe == uf * pj - part2);
                assert((uf - lf) * pj == uf * pj - lf * pj) by (nonlinear_arith);
                assert(lf * pj <= dvf * pe <= uf * pj);
                // at most eighteen digits in total: the interval width,
                // scaled up once per fractional digit, stays below the
                // fraction space, and the integer part bounds the rest
                let j: int = -kappa;
                let pj1: int = pow10((j - 1) as nat) as int;
                lemma_pow10_values();
                assert(p2top >= (uf - lf) * pj1);
                assert(765 * pj1 <= (uf - lf) * pj1) by (nonlinear_arith)
                    requires uf - lf >= 765, pj1 >= 0;
                assert(765 * pj1 < pe);
                if n1 == 0 {
                    if j - 1 >= 16 {
                        lemma_pow10_increases(16, (j - 1) as nat);
                        assert(765 * pj1 >= 765 * pow10(16)) by (nonlinear_arith)
                            requires pj1 >= pow10(16);
                        assert(false);
                    }
                    assert(digits@.len() <= 16);
                } else {
                    let pn1: int = pow10((n1 - 1) as nat) as int;
                    assert(pn1 * (765 * pj1) < pn1 * pe) by (nonlinear_arith)
                        requires 765 * pj1 < pe, pn1 >= 1;
                    lemma_pow10_adds((n1 - 1) as nat, (j - 1) as nat);
                    assert(pn1 * (765 * pj1) == 765 * (pn1 * pj1)) by (nonlinear_arith);
                    assert(pn1 * pj1 == pow10((n1 + j - 2) as nat));
                    assert(pn1 * pe <= uf) by (nonlinear_arith)
                        requires uf >= pn1 * pe;
                    if n1 + j - 2 >= 17 {
                        lemma_pow10_increases(17, (n1 + j - 2) as nat);
                        assert(765 * pow10((n1 + j - 2) as nat) >= 765 * pow10(17))
                            by (nonlinear_arith)
                            requires pow10((n1 + j - 2) as nat) >= pow10(17);
                        assert(false);
                    }
                    assert(digits@.len() <= n1 + j <= 18);
                }
                // a single digit decremented to zero would denote a value
                // below the positive lower boundary
                lemma_pow10_pos((-kappa) as nat);
                lemma_digits_val_nonneg(digits@);
                assert(lf * pj >= 1) by (nonlinear_arith)
                    requires lf >= 1, pj >= 1;
                assert(dvf >= 1) by (nonlinear_arith)
                    requires dvf * pe >= 1, pe >= 0, dvf >= 0;
                if digits@.len() >= 2 {
                    assert(digits@[0] == pre_round[0]);
                } else {
                    assert(digits@[0] == digits@[digits@.len() - 1]);
                    assert(digits@[0] - 48 == dvf);
                }
                assert(digits@[0] >= 49);
            }
            return digits.len();
        }
        proof {
            if kappa == -19 {
                assert(delta as int >= pow10(19));
                assert(pow10(19) == 10000000000000000000);
                assert(false);
            }
        }
        unit_idx = unit_idx - 1;
    }
}

/// A 53-bit significand has exactly one normalization: if both `f` and
/// its widened neighbour `2f + 1` fill the top bit of a 64-bit word, the
/// shift of `f` exceeds the shift of `2f + 1` by exactly one place.
proof fn lemma_norm_exp_align(f: u64, a: nat, b: nat)
    requires
        1 <= f,
        0x8000000000000000 <= f * pow2(a) <= 0xFFFFFFFFFFFFFFFF,
        0x8000000000000000 <= (2 * f + 1) * pow2(b) <= 0xFFFFFFFFFFFFFFFF,
    ensures
        a == b + 1,
{
    lemma2_to64();
    lemma2_to64_rest();
    lemma_pow2_pos(a);
    lemma_pow2_pos(b);
    let fi: int = f as int;
    let pa: int = pow2(a) as int;
    let pb: int = pow2(b) as int;
    if b >= 63 {
        lemma_pow2_pos((b - 63) as nat);
        lemma_pow2_adds((b - 63) as nat, 63);
        assert(pb >= pow2(63)) by (nonlinear_arith)
            requires pb == pow2((b - 63) as nat) * pow2(63), pow2((b - 63) as nat) >= 1;
        assert((2 * fi + 1) * pb >= 3 * pb) by (nonlinear_arith)
            requires fi >= 1, pb >= 1;
        assert(false);
    }
    lemma_pow2_adds(b, 1);
    let pb1: int = pow2((b + 1) as nat) as int;
    assert(pb1 == 2 * pb);
    assert(fi * pb1 < (2 * fi + 1) * pb) by (nonlinear_arith)
        requires pb1 == 2 * pb, pb >= 1;
    if fi * pb1 < 0x8000000000000000 {
        lemma_pow2_adds((62 - b) as nat, (b + 1) as nat);
        let q: int = pow2((62 - b) as nat) as int;
        assert(q * pb1 == pow2(63));
        assert(pow2(63) == 0x8000000000000000);
        assert(fi < q) by (nonlinear_arith)
            requires fi * pb1 < q * pb1, pb1 > 0;
        assert(fi * pb1 <= (q - 1) * pb1) by (nonlinear_arith)
            requires fi <= q - 1, pb1 > 0;
        assert((q - 1) * pb1 == q * pb1 - pb1) by (nonlinear_arith);
        assert((2 * fi + 1) * pb == fi * pb1 + pb) by (nonlinear_arith)
            requires pb1 == 2 * pb;
        assert((2 * fi + 1) * pb <= 0x8000000000000000 - pb1 + pb);
        assert(false);
    }
    if a >= b + 2 {
        lemma_pow2_pos((a - b - 2) as nat);
        lemma_pow2_adds((a - b - 2) as nat, (b + 2) as nat);
        lemma_pow2_adds((b + 1) as nat, 1);
        assert(pa >= 2 * pb1) by (nonlinear_arith)
            requires
                pa == pow2((a - b - 2) as nat) * pow2((b + 2) as nat),
                pow2((a - b - 2) as nat) >= 1,
                pow2((b + 2) as nat) == 2 * pb1,
                pb1 >= 1;
        assert(fi * pa >= 2 * (fi * pb1)) by (nonlinear_arith)
            requires pa >= 2 * pb1, fi >= 1, pb1 >= 1;
        assert(false);
    }
    if a <= b {
        lemma_pow2_pos((b + 1 - a) as nat);
        lemma_pow2_adds((b + 1 - a) as nat, a);
        assert(pow2((b + 1 - a) as nat) >= 2) by {
            lemma_pow2_strictly_increases(0, (b + 1 - a) as nat);
        }
        assert(pb1 >= 2 * pa) by (nonlinear_arith)
            requires
                pb1 == pow2((b + 1 - a) as nat) * pow2(a),
                pow2((b + 1 - a) as nat) >= 2,
                pa == pow2(a),
                pa >= 1;
        assert(fi * pb1 >= 2 * (fi * pa)) by (nonlinear_arith)
            requires pb1 >= 2 * pa, fi >= 1, pa >= 1;
        assert(false);
    }
}

/// The rounded high-word multiply keeps order and loses at most one unit
/// of the cut-away low word plus the rounding slack: scaled back up by
/// `2^64`, the gap between two products shrinks by less than `2^64 + 2^32`.
proof fn lemma_mul_hi_gap(x: u64, y: u64, c: u64)
    requires
        x <= y,
    ensures
        mul_hi(x, c) <= mul_hi(y, c),
        (mul_hi(y, c) - mul_hi(x, c)) * 0x10000000000000000 > (y - x) * c
            - 0x10000000000000000 - 0x100000000,
{
    let b: int = 0x100000000;
    let h: int = 0x80000000;
    let xc: int = x * c;
    let yc: int = y * c;
    assert(xc <= yc) by (nonlinear_arith)
        requires xc == x * c, yc == y * c, x <= y;
    let qx1: int = xc / b;
    let qy1: int = yc / b;
    lemma_div_is_ordered(xc, yc, b);
    let qx2: int = (qx1 + h) / b;
    let qy2: int = (qy1 + h) / b;
    lemma_div_is_ordered(qx1 + h, qy1 + h, b);
    assert(mul_hi(x, c) == qx2);
    assert(mul_hi(y, c) == qy2);
    lemma_fundamental_div_mod(xc, b);
    lemma_fundamental_div_mod(yc, b);
    lemma_mod_division_less_than_divisor(yc, b);
    lemma_fundamental_div_mod(qx1 + h, b);
    lemma_fundamental_div_mod(qy1 + h, b);
    lemma_mod_division_less_than_divisor(qy1 + h, b);
    assert(qy1 * b > yc - b) by (nonlinear_arith)
        requires yc == b * qy1 + yc % b, yc % b < b, b > 0;
    assert(qy2 * b > qy1 + h - b) by (nonlinear_arith)
        requires qy1 + h == b * qy2 + (qy1 + h) % b, (qy1 + h) % b < b, b > 0;
    assert(qy2 * b * b > (qy1 + h - b) * b) by (nonlinear_arith)
        requires qy2 * b > qy1 + h - b, b > 0;
    assert((qy1 + h - b) * b == qy1 * b + h * b - b * b) by (nonlinear_arith);
    assert(qx2 * b <= qx1 + h) by (nonlinear_arith)
        requires qx1 + h == b * qx2 + (qx1 + h) % b, (qx1 + h) % b >= 0, b > 0;
    assert(qx2 * b * b <= (qx1 + h) * b) by (nonlinear_arith)
        requires qx2 * b <= qx1 + h, b > 0;
    assert((qx1 + h) * b == qx1 * b + h * b) by (nonlinear_arith);
    assert(qx1 * b <= xc) by (nonlinear_arith)
        requires xc == b * qx1 + xc % b, xc % b >= 0;
    assert((qy2 - qx2) * (b * b) == qy2 * b * b - qx2 * b * b) by (nonlinear_arith);
    assert(yc - xc == (y - x) * c) by (nonlinear_arith)
        requires xc == x * c, yc == y * c;
    assert(b * b == 0x10000000000000000);
    lemma_mod_division_less_than_divisor(xc, b);
    lemma_mod_division_less_than_divisor(qx1 + h, b);
}


/// How a digit string and decimal exponent relate to a finite nonzero
/// binary64 pattern: for the normalization shift of the value's upper
/// boundary and a power-of-ten table entry that scales that boundary
/// into the digit generator's working window, the digits weighted by ten
/// to the exponent denote a value inside the scaled, tightened boundary
/// interval of `spec_build_fp(bits)`.  This ties the output to the input
/// value up to the table's rounding of powers of ten: any decimal inside
/// the boundary interval reads back as the same binary value.
pub open spec fn grisu2_relates(bits: u64, dg: Seq<u8>, kk: int) -> bool {
    let fp = spec_build_fp(bits);
    exists|su: nat, i: int|
        #![trigger pow10_frac(i), pow2(su)]
        {
            let cf = pow10_frac(i);
            let sexp = fp.exp - 1 - su + pow10_exp(i) + 64;
            let kap = kk + FIRSTPOWER + 8 * i;
            let upv = mul_hi(((2 * fp.frac + 1) * pow2(su)) as u64, cf) - 1;
            let lov = mul_hi((low_mant(fp) * pow2((su + 1 - low_off(fp)) as nat)) as u64, cf)
                + 1;
            &&& 0 <= i < 87
            &&& 0x8000000000000000 <= (2 * fp.frac + 1) * pow2(su) < 0x10000000000000000
            &&& EXPMIN <= sexp <= EXPMAX
            &&& -19 <= kap <= 9
            &&& (kap >= 0 ==> lov <= digits_val(dg) * (pow10(kap as nat) * pow2(
                (-sexp) as nat,
            )) <= upv)
            &&& (kap < 0 ==> lov * pow10((-kap) as nat) <= digits_val(dg) * pow2(
                (-sexp) as nat,
            ) <= upv * pow10((-kap) as nat))
        }
}

/// Introduce `grisu2_relates` from the concrete pipeline state: the
/// boundary shift, the chosen table entry, and the containment that the
/// digit generator establishes for the scaled, tightened interval.
proof fn lemma_grisu2_relates_intro(
    bits: u64,
    dg: Seq<u8>,
    kk: int,
    su: nat,
    i: int,
    upost: FloatType,
    lpost: FloatType,
)
    requires
        ({
            let fp = spec_build_fp(bits);
            let sexp = fp.exp - 1 - su + pow10_exp(i) + 64;
            let kap = kk + FIRSTPOWER + 8 * i;
            &&& 0 <= i < 87
            &&& 0x8000000000000000 <= (2 * fp.frac + 1) * pow2(su) < 0x10000000000000000
            &&& EXPMIN <= sexp <= EXPMAX
            &&& -19 <= kap <= 9
            &&& upost.frac as int == mul_hi(((2 * fp.frac + 1) * pow2(su)) as u64, pow10_frac(
                i,
            )) - 1
            &&& lpost.frac as int == mul_hi(
                (low_mant(fp) * pow2((su + 1 - low_off(fp)) as nat)) as u64,
                pow10_frac(i),
            ) + 1
            &&& upost.exp == sexp
            &&& (kap >= 0 ==> lpost.frac <= digits_val(dg) * (pow10(kap as nat) * pow2(
                (-(upost.exp)) as nat,
            )) <= upost.frac)
            &&& (kap < 0 ==> lpost.frac * pow10((-kap) as nat) <= digits_val(dg) * pow2(
                (-(upost.exp)) as nat,
            ) <= upost.frac * pow10((-kap) as nat))
        }),
    ensures
        grisu2_relates(bits, dg, kk),
{
    reveal(grisu2_relates);
}

/// The full shortest-digit pipeline for one finite, nonzero binary64
/// pattern (sign ignored): decompose, compute boundaries, scale all
/// three by a cached power of ten into the working window, tighten the
/// interval by one unit on each side against the multiplication error,
/// and generate the digits.  On return `k` holds the decimal exponent of
/// the digit string.
#[verifier::rlimit(100)]
pub fn grisu2(bits: u64, digits: &mut Vec<u8>, k: &mut i32) -> (n: usize)
    requires
        old(digits).len() == 0,
        bits & 0x7FFFFFFFFFFFFFFF != 0,
        bits & 0x7FF0000000000000 != 0x7FF0000000000000,
    ensures
        n == final(digits).len(),
        1 <= n <= 18,
        all_decimal(final(digits)@),
        final(digits)@[0] >= 49,
        -359 <= *final(k) <= 357,
        digits_val(final(digits)@) >= 1,
        grisu2_relates(bits, final(digits)@, *final(k) as int),
{
    proof {
        assert(bits & 0x7FF0000000000000 != 0x7FF0000000000000
            ==> ((bits & 0x7FF0000000000000) >> 52u64) < 0x7FF) by (bit_vector);
    }
    let mut w = build_fp(bits);
    let ghost w0: FloatType = w;
    let mut lower = FloatType { frac: 0, exp: 0 };
    let mut upper = FloatType { frac: 0, exp: 0 };
    get_normalized_boundaries(&w, &mut lower, &mut upper);
    normalize(&mut w);
    let ghost su: nat = (w0.exp - 1 - upper.exp) as nat;
    proof {
        lemma2_to64();
        lemma2_to64_rest();
        lemma_norm_exp_align(w0.frac, (w0.exp - w.exp) as nat, su);
        assert(w.exp == upper.exp);
        // gap from the value to the upper boundary: exactly one unit of
        // the shared scale
        let fi: int = w0.frac as int;
        let ps: int = pow2(su) as int;
        lemma_pow2_adds(su, 1);
        assert(w.frac == fi * (2 * ps)) by (nonlinear_arith)
            requires w.frac == fi * pow2((su + 1) as nat), pow2((su + 1) as nat) == 2 * ps;
        assert((2 * fi + 1) * ps - fi * (2 * ps) == ps) by (nonlinear_arith);
        assert(upper.frac - w.frac == ps);
        lemma_pow2_strictly_increases(9, su);
        assert(upper.frac - w.frac >= 0x400) by {
            lemma_pow2_strictly_increases(9, su);
            assert(ps >= pow2(10)) by {
                if su > 10 {
                    lemma_pow2_strictly_increases(10, su);
                }
            }
        }
        // gap from the lower boundary to the value
        if w0.frac == HIDDENBIT {
            assert(low_off(w0) == 2 && low_mant(w0) == 4 * fi - 1);
            lemma_pow2_adds((su - 1) as nat, 1);
            let ph: int = pow2((su - 1) as nat) as int;
            assert(lower.frac == (4 * fi - 1) * ph);
            assert(fi * (2 * (2 * ph)) - (4 * fi - 1) * ph == ph) by (nonlinear_arith);
            assert(w.frac - lower.frac == ph);
            assert(ph >= 0x200) by {
                if su - 1 > 9 {
                    lemma_pow2_strictly_increases(9, (su - 1) as nat);
                }
            }
        } else {
            assert(low_off(w0) == 1 && low_mant(w0) == 2 * fi - 1);
            assert(lower.frac == (2 * fi - 1) * ps);
            assert(fi * (2 * ps) - (2 * fi - 1) * ps == ps) by (nonlinear_arith);
            assert(w.frac - lower.frac == ps);
        }
        assert(w.frac - lower.frac >= 0x200);
    }
    let ghost wp: FloatType = w;
    let ghost up: FloatType = upper;
    let ghost lp: FloatType = lower;
    let mut ki: i32 = 0;
    let cp = find_cachedpow10(upper.exp, &mut ki);
    w = multiply(&w, &cp);
    upper = multiply(&upper, &cp);
    lower = multiply(&lower, &cp);
    proof {
        lemma_mul_hi_gap(wp.frac, up.frac, cp.frac);
        lemma_mul_hi_gap(lp.frac, wp.frac, cp.frac);
        lemma_mul_hi_gap(lp.frac, up.frac, cp.frac);
        let c: int = cp.frac as int;
        assert((up.frac - wp.frac) * c >= 0x400 * 0x8000000000000000) by (nonlinear_arith)
            requires up.frac - wp.frac >= 0x400, c >= 0x8000000000000000;
        assert((wp.frac - lp.frac) * c >= 0x200 * 0x8000000000000000) by (nonlinear_arith)
            requires wp.frac - lp.frac >= 0x200, c >= 0x8000000000000000;
        assert((up.frac - lp.frac) * c >= 0x600 * 0x8000000000000000) by (nonlinear_arith)
            requires up.frac - lp.frac >= 0x600, c >= 0x8000000000000000;
        assert(upper.frac - w.frac >= 511);
        assert(w.frac - lower.frac >= 255);
        assert(upper.frac - lower.frac >= 767);
        assert(mul_hi(lp.frac, cp.frac) <= 0xFFFFFFFFFFFFFFFE);
    }
    lower.frac = lower.frac + 1;
    upper.frac = upper.frac - 1;
    *k = -ki;
    let ghost k_pre: i32 = *k;
    let n: usize = generate_digits(&w, &upper, &lower, digits, k);
    proof {
        // a value no smaller than the positive lower boundary cannot
        // come from the digit string for zero
        let kap: int = *k - k_pre;
        let dvv: int = digits_val(digits@);
        let eu: nat = (-(upper.exp)) as nat;
        lemma_pow2_pos(eu);
        lemma_digits_val_nonneg(digits@);
        if kap >= 0 {
            lemma_pow10_pos(kap as nat);
            assert(dvv >= 1) by (nonlinear_arith)
                requires
                    dvv * (pow10(kap as nat) * pow2(eu)) >= 1,
                    pow10(kap as nat) >= 0,
                    pow2(eu) >= 0,
                    dvv >= 0;
        } else {
            lemma_pow10_pos((-kap) as nat);
            assert(lower.frac * pow10((-kap) as nat) >= 1) by (nonlinear_arith)
                requires lower.frac >= 1, pow10((-kap) as nat) >= 1;
            assert(dvv >= 1) by (nonlinear_arith)
                requires dvv * pow2(eu) >= 1, pow2(eu) >= 0, dvv >= 0;
        }
        // the witnesses for the relation to the input bits: the boundary
        // shift and the chosen table entry
        let fpb = spec_build_fp(bits);
        assert(fpb == w0);
        let i = choose|i: int|
            0 <= i < 87 && cp.frac == pow10_frac(i) && cp.exp as int == pow10_exp(i) && ki
                == FIRSTPOWER + 8 * i;
        let upre: int = (2 * fpb.frac + 1) * pow2(su);
        assert(upre as u64 == up.frac);
        assert((fpb.exp - low_off(fpb) - up.exp) as nat == (su + 1 - low_off(fpb)) as nat);
        let lpre: int = low_mant(fpb) * pow2((su + 1 - low_off(fpb)) as nat);
        assert(lpre as u64 == lp.frac);
        let sexp: int = fpb.exp - 1 - su + pow10_exp(i) + 64;
        assert(sexp == upper.exp);
        assert(upper.frac as int == mul_hi(upre as u64, pow10_frac(i)) - 1);
        assert(lower.frac as int == mul_hi(lpre as u64, pow10_frac(i)) + 1);
        assert(*k == -ki + kap);
        assert((*k as int) + FIRSTPOWER + 8 * i == kap);
        assert(eu == (-sexp) as nat);
        lemma_grisu2_relates_intro(bits, digits@, *k as int, su, i, upper, lower);
    }
    n
}

} // verus!
