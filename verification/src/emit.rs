//! Layout of a generated digit sequence: plain integer, plain decimal or
//! scientific notation, with the exact byte sequence of each layout given
//! by spec functions.

use vstd::prelude::*;

use crate::digits::all_decimal;

verus! {

/// The exponent marker character: `e` in the usual bases; a
/// non-standard `^` is reserved for bases of fifteen and higher, whose
/// digit alphabet already contains `e`.
pub fn exponent_notation_char(base: u64) -> (c: u8)
    ensures
        c == if base >= 15 { 94u8 } else { 101u8 },
{
    if base >= 15 {
        94
    } else {
        101
    }
}

/// Absolute value of an integer.
pub open spec fn abs_val(x: int) -> int {
    if x < 0 {
        -x
    } else {
        x
    }
}

/// `n` ASCII zero bytes (empty when `n` is negative).
pub open spec fn zeros(n: int) -> Seq<u8> {
    Seq::new(if n >= 0 { n as nat } else { 0 }, |i: int| 48u8)
}

/// The ASCII byte of one decimal digit value.
pub open spec fn digit_byte(x: int) -> u8 {
    (48 + x) as u8
}

/// The decimal digits of an exponent magnitude, at most three of them,
/// zero-padded in the middle position only when a hundreds digit exists.
pub open spec fn exp_digits_seq(e: int) -> Seq<u8> {
    if e > 99 {
        seq![digit_byte(e / 100), digit_byte((e / 10) % 10), digit_byte(e % 10)]
    } else if e > 9 {
        seq![digit_byte(e / 10), digit_byte(e % 10)]
    } else {
        seq![digit_byte(e)]
    }
}

/// Plain integer layout: the digits followed by `kk` padding zeros.
pub open spec fn plain_int_seq(dg: Seq<u8>, kk: int) -> Seq<u8> {
    dg + zeros(kk)
}

/// Plain decimal layout: either `0.` with padding zeros before all the
/// digits, or the digits split by a decimal point.
pub open spec fn plain_dec_seq(dg: Seq<u8>, kk: int) -> Seq<u8> {
    let n = dg.len() as int;
    let off = n + kk;
    if off <= 0 {
        seq![48u8, 46u8] + zeros(-off) + dg
    } else {
        dg.subrange(0, off) + seq![46u8] + dg.subrange(off, n)
    }
}

/// Scientific layout: leading digit, a point and the remaining digits
/// (capped at eighteen significant digits) when there are more than one,
/// the exponent marker, an explicit sign, and the exponent magnitude.
pub open spec fn sci_seq(dg: Seq<u8>, kk: int) -> Seq<u8> {
    let n = dg.len() as int;
    let m = if n > 18 {
        18int
    } else {
        n
    };
    let head = if m > 1 {
        seq![dg[0], 46u8] + dg.subrange(1, m)
    } else {
        seq![dg[0]]
    };
    let sign: u8 = if kk + m - 1 < 0 {
        45u8
    } else {
        43u8
    };
    head + seq![101u8, sign] + exp_digits_seq(abs_val(kk + n - 1))
}

/// The full layout choice: plain integer when no digits fall after the
/// point and the magnitude stays near the digit count, plain decimal for
/// small negative decimal exponents, scientific notation otherwise.
pub open spec fn emit_spec(dg: Seq<u8>, kk: int) -> Seq<u8> {
    let n = dg.len() as int;
    let ex = abs_val(kk + n - 1);
    if kk >= 0 && ex < n + 7 {
        plain_int_seq(dg, kk)
    } else if kk < 0 && (kk > -7 || ex < 4) {
        plain_dec_seq(dg, kk)
    } else {
        sci_seq(dg, kk)
    }
}

/// Scientific notation always carries an explicit exponent sign: right
/// after the exponent marker stands `+` or `-`, also when the decimal
/// exponent is exactly zero.
pub proof fn lemma_scientific_exponent_sign(dg: Seq<u8>, kk: int)
    requires
        dg.len() >= 1,
    ensures
        ({
            let s = sci_seq(dg, kk);
            let m = if dg.len() > 18 {
                18int
            } else {
                dg.len() as int
            };
            let p = if m > 1 {
                m + 1
            } else {
                1int
            };
            &&& s[p] == 101
            &&& (s[p + 1] == 43 || s[p + 1] == 45)
            &&& (kk + m - 1 >= 0 ==> s[p + 1] == 43)
            &&& (kk + m - 1 < 0 ==> s[p + 1] == 45)
        }),
{
}

/// A byte the decimal layouts may produce: a digit, the point, the
/// exponent marker, or an explicit sign.
pub open spec fn layout_byte(b: u8) -> bool {
    b == 43 || b == 45 || b == 46 || b == 101 || (48 <= b <= 57)
}

/// Every byte of any layout is drawn from the layout alphabet — digits,
/// zeros, the point, the marker and the signs — hence plain ASCII.
pub proof fn lemma_emit_spec_ascii(dg: Seq<u8>, kk: int)
    requires
        all_decimal(dg),
        1 <= dg.len() <= 29,
        -400 <= kk <= 400,
    ensures
        forall|i: int|
            0 <= i < emit_spec(dg, kk).len() ==> layout_byte(#[trigger] emit_spec(dg, kk)[i]),
        forall|i: int| 0 <= i < emit_spec(dg, kk).len() ==> #[trigger] emit_spec(dg, kk)[i] < 128,
        1 <= emit_spec(dg, kk).len(),
{
    let e = abs_val(kk + dg.len() - 1);
    assert(e <= 999);
    vstd::arithmetic::div_mod::lemma_mod_division_less_than_divisor(e, 10);
    vstd::arithmetic::div_mod::lemma_mod_division_less_than_divisor(e / 10, 10);
    assert(e / 100 <= 9);
    assert(e > 9 && e <= 99 ==> e / 10 <= 9);
    assert forall|i: int| 0 <= i < emit_spec(dg, kk).len() implies layout_byte(
        #[trigger] emit_spec(dg, kk)[i],
    ) by {
        assert(48 <= dg[0] <= 57);
        if 0 <= i < dg.len() {
            assert(48 <= dg[i] <= 57);
        }
    }
}

/// No layout of at most eighteen digits is longer than twenty-five
/// bytes: the plain forms pad by at most seven places, and the
/// scientific form adds at most six bytes around the digits.
pub proof fn lemma_emit_spec_len(dg: Seq<u8>, kk: int)
    requires
        1 <= dg.len() <= 18,
        -400 <= kk <= 400,
    ensures
        dg.len() <= emit_spec(dg, kk).len() <= 25,
{
    let n = dg.len() as int;
    let ex = abs_val(kk + n - 1);
    if kk >= 0 && ex < n + 7 {
        assert(kk < 8);
        assert(emit_spec(dg, kk).len() == n + kk);
    } else if kk < 0 && (kk > -7 || ex < 4) {
        if n + kk <= 0 {
            assert(emit_spec(dg, kk).len() == 2 - kk);
            if kk > -7 {
                assert(2 - kk <= 9);
            } else {
                assert(1 - n - kk < 4);
                assert(2 - kk <= n + 4);
            }
        } else {
            assert(emit_spec(dg, kk).len() == n + 1);
        }
    } else {
        let m = if n > 18 {
            18int
        } else {
            n
        };
        assert(m == n);
        assert(exp_digits_seq(ex).len() <= 3);
        assert(emit_spec(dg, kk).len() <= n + 1 + 2 + 3);
    }
}

/// Append the bytes `src[from..to]` to `dest`.
fn push_range(dest: &mut Vec<u8>, src: &Vec<u8>, from: usize, to: usize)
    requires
        from <= to <= src.len(),
    ensures
        final(dest)@ == old(dest)@ + src@.subrange(from as int, to as int),
{
    let mut i: usize = from;
    proof {
        assert(dest@ =~= old(dest)@ + src@.subrange(from as int, from as int));
    }
    while i < to
        invariant
            from <= i <= to <= src.len(),
            dest@ == old(dest)@ + src@.subrange(from as int, i as int),
        decreases to - i,
    {
        let b: u8 = src[i];
        dest.push(b);
        proof {
            assert(src@.subrange(from as int, i + 1) =~= src@.subrange(from as int, i as int)
                + seq![src@[i as int]]);
            assert(dest@ =~= old(dest)@ + src@.subrange(from as int, i + 1));
        }
        i = i + 1;
    }
}

/// Append `cnt` ASCII zero bytes to `dest`.
fn push_zeros(dest: &mut Vec<u8>, cnt: usize)
    ensures
        final(dest)@ == old(dest)@ + zeros(cnt as int),
{
    let mut i: usize = 0;
    proof {
        assert(dest@ =~= old(dest)@ + zeros(0));
    }
    while i < cnt
        invariant
            i <= cnt,
            dest@ == old(dest)@ + zeros(i as int),
        decreases cnt - i,
    {
        dest.push(48);
        proof {
            assert(zeros(i + 1) =~= zeros(i as int) + seq![48u8]);
            assert(dest@ =~= old(dest)@ + zeros(i + 1));
        }
        i = i + 1;
    }
}

/// Append the decimal digits of an exponent magnitude to `dest`:
/// three digits above ninety-nine, two above nine, one otherwise.
fn push_exp_digits(dest: &mut Vec<u8>, exp: i32) -> (cnt: usize)
    requires
        0 <= exp <= 999,
    ensures
        final(dest)@ == old(dest)@ + exp_digits_seq(exp as int),
        cnt == exp_digits_seq(exp as int).len(),
{
    proof {
        vstd::arithmetic::div_mod::lemma_fundamental_div_mod(exp as int, 100);
        vstd::arithmetic::div_mod::lemma_fundamental_div_mod(exp as int, 10);
        vstd::arithmetic::div_mod::lemma_mod_breakdown(exp as int, 10, 10);
    }
    if exp > 99 {
        let cent: i32 = exp / 100;
        let rem: i32 = exp - cent * 100;
        proof {
            vstd::arithmetic::div_mod::lemma_fundamental_div_mod(rem as int, 10);
        }
        dest.push((cent as u8) + 48);
        if rem > 9 {
            let dec: i32 = rem / 10;
            dest.push((dec as u8) + 48);
            dest.push((((rem - dec * 10) % 10) as u8) + 48);
        } else {
            dest.push(48);
            dest.push(((rem % 10) as u8) + 48);
        }
        proof {
            assert(dest@ =~= old(dest)@ + exp_digits_seq(exp as int));
        }
        3
    } else if exp > 9 {
        let dec: i32 = exp / 10;
        dest.push((dec as u8) + 48);
        dest.push((((exp - dec * 10) % 10) as u8) + 48);
        proof {
            assert(dest@ =~= old(dest)@ + exp_digits_seq(exp as int));
        }
        2
    } else {
        dest.push(((exp % 10) as u8) + 48);
        proof {
            assert(dest@ =~= old(dest)@ + exp_digits_seq(exp as int));
        }
        1
    }
}

/// Write the digit sequence to `dest` in the layout that `emit_spec`
/// chooses for decimal exponent `k`, and return the number of bytes
/// written.
#[verifier::rlimit(100)]
pub fn emit_digits(digits: &Vec<u8>, dest: &mut Vec<u8>, k: i32) -> (n: usize)
    requires
        1 <= digits.len() <= 29,
        all_decimal(digits@),
        -400 <= k <= 400,
    ensures
        final(dest)@ == old(dest)@ + emit_spec(digits@, k as int),
        n == emit_spec(digits@, k as int).len(),
{
    let ndigits: usize = digits.len();
    let exp_signed: i32 = k + (ndigits as i32) - 1;
    let exp: i32 = if exp_signed < 0 {
        -exp_signed
    } else {
        exp_signed
    };
    proof {
        assert(exp == abs_val(k as int + digits@.len() - 1));
    }
    // plain integer layout
    if k >= 0 && exp < (ndigits as i32) + 7 {
        push_range(dest, digits, 0, ndigits);
        push_zeros(dest, k as usize);
        proof {
            assert(digits@.subrange(0, ndigits as int) =~= digits@);
            assert(dest@ =~= old(dest)@ + plain_int_seq(digits@, k as int));
        }
        return ndigits + (k as usize);
    }
    // plain decimal layout without scientific notation
    if k < 0 && (k > -7 || exp < 4) {
        let off: i32 = (ndigits as i32) + k;
        if off <= 0 {
            let pad: usize = (-off) as usize;
            dest.push(48);
            dest.push(46);
            push_zeros(dest, pad);
            push_range(dest, digits, 0, ndigits);
            proof {
                assert(digits@.subrange(0, ndigits as int) =~= digits@);
                assert(dest@ =~= old(dest)@ + plain_dec_seq(digits@, k as int));
            }
            return ndigits + 2 + pad;
        } else {
            let cut: usize = off as usize;
            push_range(dest, digits, 0, cut);
            dest.push(46);
            push_range(dest, digits, cut, ndigits);
            proof {
                assert(dest@ =~= old(dest)@ + plain_dec_seq(digits@, k as int));
            }
            return ndigits + 1;
        }
    }
    // scientific layout
    let m: usize = if ndigits > 18 {
        18
    } else {
        ndigits
    };
    let first: u8 = digits[0];
    dest.push(first);
    if m > 1 {
        dest.push(46);
        push_range(dest, digits, 1, m);
    }
    let marker: u8 = exponent_notation_char(10);
    dest.push(marker);
    let sign: u8 = if k + (m as i32) - 1 < 0 {
        45
    } else {
        43
    };
    dest.push(sign);
    let ecount: usize = push_exp_digits(dest, exp);
    proof {
        assert(dest@ =~= old(dest)@ + sci_seq(digits@, k as int));
    }
    let mhead: usize = if m > 1 {
        m + 1
    } else {
        1
    };
    mhead + 2 + ecount
}

} // verus!
