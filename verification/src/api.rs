//! The conversion entry points: special-value filtering, the combined
//! digit-generation and layout pipeline, and the byte-, string- and
//! buffer-producing wrappers for binary64 and binary32 bit patterns.

use vstd::prelude::*;

use crate::digits::{all_decimal, grisu2, grisu2_relates};
use crate::emit::{emit_digits, emit_spec, lemma_emit_spec_ascii, lemma_emit_spec_len};
use crate::extended::{EXPMASK, FRACMASK};

verus! {

/// Sufficient capacity, in bytes, for any binary64 value formatted in
/// decimal base: sign, digits, decimal point and a worst-case scientific
/// exponent suffix included.
pub const MAX_FLOAT_SIZE: usize = 60;

/// The binary64 pattern denotes zero of either sign.
pub open spec fn is_zero64(bits: u64) -> bool {
    bits & 0x7FFFFFFFFFFFFFFF == 0
}

/// The binary64 pattern denotes a NaN.
pub open spec fn is_nan64(bits: u64) -> bool {
    bits & EXPMASK == EXPMASK && bits & FRACMASK != 0
}

/// The binary64 pattern denotes an infinity of either sign.
pub open spec fn is_inf64(bits: u64) -> bool {
    bits & EXPMASK == EXPMASK && bits & FRACMASK == 0
}

/// The binary64 value compares below zero: sign bit set, magnitude
/// nonzero, and not a NaN — negative zero and NaN take no sign.
pub open spec fn is_neg64(bits: u64) -> bool {
    bits >= 0x8000000000000000 && bits & 0x7FFFFFFFFFFFFFFF != 0 && !is_nan64(bits)
}

/// The leading minus sign of a formatted value, empty where none is due.
pub open spec fn sign_seq(bits: u64) -> Seq<u8> {
    if is_neg64(bits) {
        seq![45u8]
    } else {
        Seq::empty()
    }
}

/// The failures a conversion can report.
#[derive(Clone, Copy, Debug, PartialEq, Eq, Structural)]
pub enum FtoaError {
    /// A base other than ten was requested; only decimal output is
    /// implemented.
    UnsupportedBase,
    /// The destination capacity cannot hold the formatted value;
    /// `needed` bytes would suffice.
    BufferTooSmall { needed: usize },
}

proof fn lemma_special_bits(bits: u64)
    by (bit_vector)
    ensures
        bits & 0x7FFFFFFFFFFFFFFF == 0 ==> bits & 0x7FF0000000000000 == 0,
        (bits & 0x7FF0000000000000 == 0x7FF0000000000000) ==> bits & 0x7FFFFFFFFFFFFFFF != 0,
{
}

/// Append the fixed text of a special value — zero of either sign, NaN,
/// or infinity — and return its length; return zero for all other
/// patterns, leaving the destination untouched.
pub fn filter_special(bits: u64, dest: &mut Vec<u8>) -> (n: usize)
    ensures
        is_zero64(bits) ==> n == 1 && final(dest)@ == old(dest)@ + seq![48u8],
        is_nan64(bits) ==> n == 3 && final(dest)@ == old(dest)@ + seq![78u8, 97u8, 78u8],
        is_inf64(bits) ==> n == 8 && final(dest)@ == old(dest)@
            + seq![73u8, 110u8, 102u8, 105u8, 110u8, 105u8, 116u8, 121u8],
        (!is_zero64(bits) && !is_nan64(bits) && !is_inf64(bits)) ==> n == 0 && final(dest)@
            == old(dest)@,
{
    proof {
        lemma_special_bits(bits);
    }
    if bits & 0x7FFFFFFFFFFFFFFF == 0 {
        dest.push(48);
        proof {
            assert(dest@ =~= old(dest)@ + seq![48u8]);
        }
        return 1;
    }
    if (bits & EXPMASK) != EXPMASK {
        return 0;
    }
    if bits & FRACMASK != 0 {
        dest.push(78);
        dest.push(97);
        dest.push(78);
        proof {
            assert(dest@ =~= old(dest)@ + seq![78u8, 97u8, 78u8]);
        }
        3
    } else {
        dest.push(73);
        dest.push(110);
        dest.push(102);
        dest.push(105);
        dest.push(110);
        dest.push(105);
        dest.push(116);
        dest.push(121);
        proof {
            assert(dest@ =~= old(dest)@
                + seq![73u8, 110u8, 102u8, 105u8, 110u8, 105u8, 116u8, 121u8]);
        }
        8
    }
}

/// Format one binary64 pattern, sign excluded, appending the text to
/// `dest`: the fixed text for special values, otherwise the shortest
/// digit sequence laid out by decimal exponent.
pub fn fpconv_dtoa(bits: u64, dest: &mut Vec<u8>) -> (n: usize)
    ensures
        1 <= n <= 25,
        final(dest)@.len() == old(dest)@.len() + n,
        forall|i: int| 0 <= i < old(dest)@.len() ==> final(dest)@[i] == #[trigger] old(dest)@[i],
        forall|i: int|
            old(dest)@.len() <= i < final(dest)@.len() ==> #[trigger] final(dest)@[i] < 128,
        is_zero64(bits) ==> final(dest)@ == old(dest)@ + seq![48u8],
        is_nan64(bits) ==> final(dest)@ == old(dest)@ + seq![78u8, 97u8, 78u8],
        is_inf64(bits) ==> final(dest)@ == old(dest)@
            + seq![73u8, 110u8, 102u8, 105u8, 110u8, 105u8, 116u8, 121u8],
        (!is_zero64(bits) && !is_nan64(bits) && !is_inf64(bits)) ==> exists|dg: Seq<u8>, kk: int|
            1 <= dg.len() <= 18 && all_decimal(dg) && dg[0] >= 49 && -359 <= kk <= 357
                && grisu2_relates(bits, dg, kk) && final(dest)@ == old(dest)@
                + #[trigger] emit_spec(dg, kk),
{
    let spec_n: usize = filter_special(bits, dest);
    if spec_n != 0 {
        return spec_n;
    }
    let mut digits: Vec<u8> = Vec::new();
    let mut kk: i32 = 0;
    let _ndigits: usize = grisu2(bits, &mut digits, &mut kk);
    let n2: usize = emit_digits(&digits, dest, kk);
    proof {
        lemma_emit_spec_ascii(digits@, kk as int);
        lemma_emit_spec_len(digits@, kk as int);
        assert(1 <= digits@.len() <= 18 && all_decimal(digits@) && digits@[0] >= 49 && -359
            <= kk as int <= 357 && grisu2_relates(bits, digits@, kk as int) && dest@ == old(
            dest,
        )@ + emit_spec(digits@, kk as int));
    }
    n2
}

/// Relies on String::from_utf8: bytes below 0x80 are valid UTF-8 and
/// decode one to one into the characters with the same code points.
#[verifier::external_body]
fn ascii_bytes_to_string(v: Vec<u8>) -> (r: String)
    requires
        forall|i: int| 0 <= i < v@.len() ==> v@[i] < 0x80,
    ensures
        r@.len() == v@.len(),
        forall|i: int| 0 <= i < v@.len() ==> r@[i] == v@[i] as char,
{
    match String::from_utf8(v) {
        Ok(s) => s,
        Err(_) => String::new(),
    }
}

/// Format a binary64 bit pattern in the given base as an owned byte
/// sequence.  Only base ten is implemented; any other base is reported,
/// never silently misformatted.
pub fn f64toa_bytes(bits: u64, base: u8) -> (r: Result<Vec<u8>, FtoaError>)
    ensures
        base != 10 <==> r == Err::<Vec<u8>, FtoaError>(FtoaError::UnsupportedBase),
        r matches Err(e) ==> e == FtoaError::UnsupportedBase,
        r matches Ok(v) ==> {
            &&& 1 <= v@.len() <= MAX_FLOAT_SIZE
            &&& forall|i: int| 0 <= i < v@.len() ==> #[trigger] v@[i] < 128
            &&& is_zero64(bits) ==> v@ == seq![48u8]
            &&& is_nan64(bits) ==> v@ == seq![78u8, 97u8, 78u8]
            &&& is_inf64(bits) ==> v@ == sign_seq(bits)
                + seq![73u8, 110u8, 102u8, 105u8, 110u8, 105u8, 116u8, 121u8]
            &&& (!is_zero64(bits) && !is_nan64(bits) && !is_inf64(bits)) ==> exists|
                dg: Seq<u8>,
                kk: int,
            |
                1 <= dg.len() <= 18 && all_decimal(dg) && dg[0] >= 49 && -359 <= kk <= 357
                    && grisu2_relates(bits, dg, kk) && v@ == sign_seq(bits)
                    + #[trigger] emit_spec(dg, kk)
        },
{
    if base != 10 {
        return Err(FtoaError::UnsupportedBase);
    }
    let mut buf: Vec<u8> = Vec::with_capacity(MAX_FLOAT_SIZE);
    let magnitude: u64 = bits & 0x7FFFFFFFFFFFFFFF;
    let nan: bool = (bits & EXPMASK) == EXPMASK && (bits & FRACMASK) != 0;
    if bits >= 0x8000000000000000 && magnitude != 0 && !nan {
        buf.push(45);
    }
    let ghost signed: Seq<u8> = buf@;
    let _ = fpconv_dtoa(bits, &mut buf);
    proof {
        assert(signed =~= sign_seq(bits));
        if is_zero64(bits) {
            assert(buf@ =~= seq![48u8]);
        }
        if is_nan64(bits) {
            assert(buf@ =~= seq![78u8, 97u8, 78u8]);
        }
    }
    Ok(buf)
}

/// Format a binary64 bit pattern in the given base as owned text.  All
/// output bytes are ASCII, so the bytes and the characters coincide.
pub fn f64toa_string(bits: u64, base: u8) -> (r: Result<String, FtoaError>)
    ensures
        base != 10 <==> r == Err::<String, FtoaError>(FtoaError::UnsupportedBase),
        r matches Ok(s) ==> {
            &&& 1 <= s@.len() <= MAX_FLOAT_SIZE
            &&& (!is_zero64(bits) && !is_nan64(bits) && !is_inf64(bits)) ==> exists|
                dg: Seq<u8>,
                kk: int,
            |
                1 <= dg.len() <= 18 && all_decimal(dg) && dg[0] >= 49 && -359 <= kk <= 357
                    && grisu2_relates(bits, dg, kk) && s@ == (sign_seq(bits)
                    + #[trigger] emit_spec(dg, kk)).map_values(|b: u8| b as char)
            &&& is_zero64(bits) ==> s@ == seq!['0']
            &&& is_nan64(bits) ==> s@ == seq!['N', 'a', 'N']
            &&& (is_inf64(bits) && !is_neg64(bits)) ==> s@ == seq![
                'I',
                'n',
                'f',
                'i',
                'n',
                'i',
                't',
                'y',
            ]
            &&& (is_inf64(bits) && is_neg64(bits)) ==> s@ == seq![
                '-',
                'I',
                'n',
                'f',
                'i',
                'n',
                'i',
                't',
                'y',
            ]
        },
{
    let bytes = f64toa_bytes(bits, base);
    match bytes {
        Ok(v) => {
            let ghost vb: Seq<u8> = v@;
            let s = ascii_bytes_to_string(v);
            proof {
                if !is_zero64(bits) && !is_nan64(bits) && !is_inf64(bits) {
                    let (dg, kk) = choose|dg: Seq<u8>, kk: int|
                        1 <= dg.len() <= 18 && all_decimal(dg) && dg[0] >= 49 && (-359 <= kk
                            <= 357) && grisu2_relates(bits, dg, kk) && vb == sign_seq(bits)
                            + #[trigger] emit_spec(dg, kk);
                    assert(s@ =~= (sign_seq(bits) + emit_spec(dg, kk)).map_values(
                        |b: u8| b as char,
                    ));
                }
                if is_zero64(bits) {
                    assert(s@ =~= seq!['0']);
                }
                if is_nan64(bits) {
                    assert(s@ =~= seq!['N', 'a', 'N']);
                }
                if is_inf64(bits) && !is_neg64(bits) {
                    assert(vb =~= seq![73u8, 110u8, 102u8, 105u8, 110u8, 105u8, 116u8, 121u8]);
                    assert(s@ =~= seq!['I', 'n', 'f', 'i', 'n', 'i', 't', 'y']);
                }
                if is_inf64(bits) && is_neg64(bits) {
                    assert(s@ =~= seq!['-', 'I', 'n', 'f', 'i', 'n', 'i', 't', 'y']);
                }
            }
            Ok(s)
        },
        Err(e) => Err(e),
    }
}

/// Format a binary64 bit pattern into a caller-declared capacity.  The
/// formatted bytes are appended to `dest` only when they fit within
/// `cap`; a too-small capacity — zero included — is reported together
/// with the number of bytes that would have been needed, and `dest` is
/// left untouched.
pub fn f64toa_write(bits: u64, base: u8, dest: &mut Vec<u8>, cap: usize) -> (r: Result<
    usize,
    FtoaError,
>)
    ensures
        base != 10 ==> r == Err::<usize, FtoaError>(FtoaError::UnsupportedBase) && final(dest)@
            == old(dest)@,
        r matches Err(e) ==> final(dest)@ == old(dest)@ && (e == FtoaError::UnsupportedBase
            ==> base != 10) && (e matches FtoaError::BufferTooSmall { needed } ==> needed > cap
            && 1 <= needed <= MAX_FLOAT_SIZE),
        // success is owed whenever the documented maximum capacity is given
        base == 10 && cap >= MAX_FLOAT_SIZE ==> r matches Ok(_),
        r matches Ok(n) ==> {
            &&& base == 10
            &&& 1 <= n <= cap
            &&& n <= MAX_FLOAT_SIZE
            &&& final(dest)@.len() == old(dest)@.len() + n
            &&& forall|i: int|
                0 <= i < old(dest)@.len() ==> final(dest)@[i] == #[trigger] old(dest)@[i]
            &&& is_zero64(bits) ==> final(dest)@ == old(dest)@ + seq![48u8]
            &&& is_nan64(bits) ==> final(dest)@ == old(dest)@ + seq![78u8, 97u8, 78u8]
            &&& (!is_zero64(bits) && !is_nan64(bits) && !is_inf64(bits)) ==> exists|
                dg: Seq<u8>,
                kk: int,
            |
                1 <= dg.len() <= 18 && all_decimal(dg) && dg[0] >= 49 && -359 <= kk <= 357
                    && grisu2_relates(bits, dg, kk) && final(dest)@ == old(dest)@ + sign_seq(
                    bits,
                ) + #[trigger] emit_spec(dg, kk)
        },
{
    if base != 10 {
        return Err(FtoaError::UnsupportedBase);
    }
    let formatted = f64toa_bytes(bits, 10);
    match formatted {
        Ok(mut v) => {
            let ghost vb: Seq<u8> = v@;
            let n: usize = v.len();
            if n > cap {
                return Err(FtoaError::BufferTooSmall { needed: n });
            }
            dest.append(&mut v);
            proof {
                if !is_zero64(bits) && !is_nan64(bits) && !is_inf64(bits) {
                    let (dg, kk) = choose|dg: Seq<u8>, kk: int|
                        1 <= dg.len() <= 18 && all_decimal(dg) && dg[0] >= 49 && (-359 <= kk
                            <= 357) && grisu2_relates(bits, dg, kk) && vb == sign_seq(bits)
                            + #[trigger] emit_spec(dg, kk);
                    assert(dest@ =~= old(dest)@ + sign_seq(bits) + emit_spec(dg, kk));
                }
            }
            Ok(n)
        },
        Err(_) => {
            proof {
                assert(false);
            }
            Err(FtoaError::UnsupportedBase)
        },
    }
}

/// The binary32 pattern denotes zero of either sign.
pub open spec fn is_zero32(b: u32) -> bool {
    b & 0x7FFFFFFF == 0
}

/// The binary32 pattern denotes a NaN.
pub open spec fn is_nan32(b: u32) -> bool {
    b & 0x7F800000 == 0x7F800000 && b & 0x7FFFFF != 0
}

/// The binary32 pattern denotes an infinity of either sign.
pub open spec fn is_inf32(b: u32) -> bool {
    b & 0x7F800000 == 0x7F800000 && b & 0x7FFFFF == 0
}

/// The binary32 value compares below zero: sign bit set, magnitude
/// nonzero, and not a NaN.
pub open spec fn is_neg32(b: u32) -> bool {
    b >= 0x80000000 && b & 0x7FFFFFFF != 0 && !is_nan32(b)
}

/// A subnormal fraction doubled until its top bit reaches the position
/// of the implicit bit.
pub open spec fn sub_norm_frac(m: u32) -> u32
    decreases 0x1000000 - m,
{
    if m == 0 || m >= 0x800000 {
        m
    } else {
        sub_norm_frac((2 * m) as u32)
    }
}

/// The exponent left over by the doubling of `sub_norm_frac`, starting
/// from `e`.
pub open spec fn sub_norm_exp(m: u32, e: int) -> int
    decreases 0x1000000 - m,
{
    if m == 0 || m >= 0x800000 {
        e
    } else {
        sub_norm_exp((2 * m) as u32, e - 1)
    }
}

/// The binary64 pattern denoting the same value as a binary32 pattern:
/// the exponent is re-biased and the fraction widened by 29 bits, a
/// subnormal fraction is normalized first, and a NaN keeps its payload
/// in the widened position.
pub open spec fn f32_to_f64_bits_spec(b: u32) -> u64 {
    let sign: u64 = (((b >> 31u32) as u64) << 63u64) as u64;
    let e: u32 = (b >> 23u32) & 0xFF;
    let m: u32 = b & 0x7FFFFF;
    if e == 0xFF {
        sign | 0x7FF0000000000000u64 | (((m as u64) << 29u64) as u64)
    } else if e != 0 {
        sign | ((((e + 896) as u64) << 52u64) as u64) | (((m as u64) << 29u64) as u64)
    } else if m == 0 {
        sign
    } else {
        let mm = sub_norm_frac(m);
        let ee = sub_norm_exp(m, -126);
        sign | ((((ee + 1023) as u64) << 52u64) as u64) | ((((mm - 0x800000) as u64)
            << 29u64) as u64)
    }
}

/// Widen a binary32 bit pattern to the binary64 pattern of the same
/// value.  The special-value classes and the sign carry over exactly.
pub fn f32_bits_to_f64_bits(b: u32) -> (r: u64)
    ensures
        r == f32_to_f64_bits_spec(b),
        is_zero64(r) <==> is_zero32(b),
        is_nan64(r) <==> is_nan32(b),
        is_inf64(r) <==> is_inf32(b),
        is_neg64(r) <==> is_neg32(b),
{
    let s32: u32 = b >> 31u32;
    let sign: u64 = (s32 as u64) << 63u64;
    let e: u32 = (b >> 23u32) & 0xFF;
    let m: u32 = b & 0x7FFFFF;
    proof {
        assert((b >> 31u32) <= 1 && ((b >> 23u32) & 0xFF) <= 0xFF && (b & 0x7FFFFF) <= 0x7FFFFF
            && ((b >> 31u32) == 1 <==> b >= 0x80000000) && (((b >> 23u32) & 0xFF) == 0xFF <==> b
            & 0x7F800000 == 0x7F800000) && ((((b >> 23u32) & 0xFF) == 0 && b & 0x7FFFFF == 0)
            <==> b & 0x7FFFFFFF == 0)) by (bit_vector);
    }
    if e == 0xFF {
        let r: u64 = sign | 0x7FF0000000000000 | ((m as u64) << 29u64);
        proof {
            assert((r & 0x7FF0000000000000 == 0x7FF0000000000000) && ((r & 0x000FFFFFFFFFFFFF
                != 0) <==> (b & 0x7FFFFF != 0)) && (r & 0x7FFFFFFFFFFFFFFF != 0) && ((r
                >= 0x8000000000000000) <==> s32 == 1)) by (bit_vector)
                requires
                    r == ((s32 as u64) << 63u64) | 0x7FF0000000000000 | (((b
                        & 0x7FFFFF) as u64) << 29u64),
                    s32 <= 1;
            assert(is_nan64(r) <==> is_nan32(b));
            assert(is_inf64(r) <==> is_inf32(b));
        }
        r
    } else if e != 0 {
        let ebits: u64 = (e as u64) + 896;
        let r: u64 = sign | (ebits << 52u64) | ((m as u64) << 29u64);
        proof {
            assert((r & 0x7FF0000000000000 != 0x7FF0000000000000) && (r & 0x7FF0000000000000
                != 0) && (r & 0x7FFFFFFFFFFFFFFF != 0) && ((r >= 0x8000000000000000) <==> s32
                == 1)) by (bit_vector)
                requires
                    r == ((s32 as u64) << 63u64) | (ebits << 52u64) | (((b & 0x7FFFFF) as u64)
                        << 29u64),
                    s32 <= 1,
                    897 <= ebits <= 1150;
            assert(is_nan64(r) <==> is_nan32(b));
            assert(is_inf64(r) <==> is_inf32(b));
        }
        r
    } else if m == 0 {
        proof {
            assert((((s32 as u64) << 63u64) & 0x7FFFFFFFFFFFFFFF == 0) && (((s32 as u64)
                << 63u64) & 0x7FF0000000000000 == 0) && ((((s32 as u64) << 63u64)
                >= 0x8000000000000000) <==> s32 == 1)) by (bit_vector)
                requires
                    s32 <= 1;
        }
        sign
    } else {
        let mut mm: u32 = m;
        let mut ee: i32 = -126;
        proof {
            vstd::arithmetic::power2::lemma2_to64();
        }
        while mm < 0x800000
            invariant
                1 <= mm <= 0xFFFFFF,
                -149 <= ee <= -126,
                mm as nat >= vstd::arithmetic::power2::pow2((-126 - ee) as nat),
                sub_norm_frac(m) == sub_norm_frac(mm),
                sub_norm_exp(m, -126) == sub_norm_exp(mm, ee as int),
            decreases 0x1000000 - mm,
        {
            proof {
                vstd::arithmetic::power2::lemma2_to64();
                let j: nat = (-126 - ee) as nat;
                vstd::arithmetic::power2::lemma_pow2_adds(j, 1);
                if ee == -149 {
                    assert(vstd::arithmetic::power2::pow2(23) == 0x800000);
                    assert(false);
                }
            }
            mm = mm * 2;
            ee = ee - 1;
        }
        let ebits: u64 = ((ee + 1023) as u32) as u64;
        let mf: u64 = (mm - 0x800000) as u64;
        let r: u64 = sign | (ebits << 52u64) | (mf << 29u64);
        proof {
            assert((r & 0x7FF0000000000000 != 0x7FF0000000000000) && (r & 0x7FF0000000000000
                != 0) && (r & 0x7FFFFFFFFFFFFFFF != 0) && ((r >= 0x8000000000000000) <==> s32
                == 1)) by (bit_vector)
                requires
                    r == ((s32 as u64) << 63u64) | (ebits << 52u64) | (mf << 29u64),
                    s32 <= 1,
                    874 <= ebits <= 897,
                    mf <= 0x7FFFFF;
            assert(is_nan64(r) <==> is_nan32(b));
            assert(is_inf64(r) <==> is_inf32(b));
        }
        r
    }
}

/// Format a binary32 bit pattern in the given base as an owned byte
/// sequence, by widening it to the binary64 pattern of the same value.
pub fn f32toa_bytes(bits: u32, base: u8) -> (r: Result<Vec<u8>, FtoaError>)
    ensures
        base != 10 <==> r == Err::<Vec<u8>, FtoaError>(FtoaError::UnsupportedBase),
        r matches Err(e) ==> e == FtoaError::UnsupportedBase,
        r matches Ok(v) ==> {
            &&& 1 <= v@.len() <= MAX_FLOAT_SIZE
            &&& forall|i: int| 0 <= i < v@.len() ==> #[trigger] v@[i] < 128
            &&& (!is_zero32(bits) && !is_nan32(bits) && !is_inf32(bits)) ==> exists|
                dg: Seq<u8>,
                kk: int,
            |
                1 <= dg.len() <= 18 && all_decimal(dg) && dg[0] >= 49 && -359 <= kk <= 357
                    && grisu2_relates(f32_to_f64_bits_spec(bits), dg, kk) && v@ == sign_seq(
                    f32_to_f64_bits_spec(bits),
                ) + #[trigger] emit_spec(dg, kk)
            &&& is_zero32(bits) ==> v@ == seq![48u8]
            &&& is_nan32(bits) ==> v@ == seq![78u8, 97u8, 78u8]
            &&& (is_inf32(bits) && !is_neg32(bits)) ==> v@ == seq![
                73u8,
                110u8,
                102u8,
                105u8,
                110u8,
                105u8,
                116u8,
                121u8,
            ]
            &&& (is_inf32(bits) && is_neg32(bits)) ==> v@ == seq![
                45u8,
                73u8,
                110u8,
                102u8,
                105u8,
                110u8,
                105u8,
                116u8,
                121u8,
            ]
        },
{
    let wide: u64 = f32_bits_to_f64_bits(bits);
    let r = f64toa_bytes(wide, base);
    proof {
        if let Ok(v) = &r {
            if is_inf32(bits) && is_neg32(bits) {
                assert(v@ =~= seq![45u8, 73u8, 110u8, 102u8, 105u8, 110u8, 105u8, 116u8, 121u8]);
            }
            if is_inf32(bits) && !is_neg32(bits) {
                assert(v@ =~= seq![73u8, 110u8, 102u8, 105u8, 110u8, 105u8, 116u8, 121u8]);
            }
        }
    }
    r
}

/// Format a binary32 bit pattern in the given base as owned text.
pub fn f32toa_string(bits: u32, base: u8) -> (r: Result<String, FtoaError>)
    ensures
        base != 10 <==> r == Err::<String, FtoaError>(FtoaError::UnsupportedBase),
        r matches Ok(s) ==> {
            &&& 1 <= s@.len() <= MAX_FLOAT_SIZE
            &&& (!is_zero32(bits) && !is_nan32(bits) && !is_inf32(bits)) ==> exists|
                dg: Seq<u8>,
                kk: int,
            |
                1 <= dg.len() <= 18 && all_decimal(dg) && dg[0] >= 49 && -359 <= kk <= 357
                    && grisu2_relates(f32_to_f64_bits_spec(bits), dg, kk) && s@ == (sign_seq(
                    f32_to_f64_bits_spec(bits),
                ) + #[trigger] emit_spec(dg, kk)).map_values(|b: u8| b as char)
            &&& is_zero32(bits) ==> s@ == seq!['0']
            &&& is_nan32(bits) ==> s@ == seq!['N', 'a', 'N']
            &&& (is_inf32(bits) && !is_neg32(bits)) ==> s@ == seq![
                'I',
                'n',
                'f',
                'i',
                'n',
                'i',
                't',
                'y',
            ]
            &&& (is_inf32(bits) && is_neg32(bits)) ==> s@ == seq![
                '-',
                'I',
                'n',
                'f',
                'i',
                'n',
                'i',
                't',
                'y',
            ]
        },
{
    let wide: u64 = f32_bits_to_f64_bits(bits);
    f64toa_string(wide, base)
}

/// Format a binary32 bit pattern into a caller-declared capacity, with
/// the same capacity contract as the binary64 writer.
pub fn f32toa_write(bits: u32, base: u8, dest: &mut Vec<u8>, cap: usize) -> (r: Result<
    usize,
    FtoaError,
>)
    ensures
        base != 10 ==> r == Err::<usize, FtoaError>(FtoaError::UnsupportedBase) && final(dest)@
            == old(dest)@,
        r matches Err(e) ==> final(dest)@ == old(dest)@ && (e == FtoaError::UnsupportedBase
            ==> base != 10) && (e matches FtoaError::BufferTooSmall { needed } ==> needed > cap
            && 1 <= needed <= MAX_FLOAT_SIZE),
        base == 10 && cap >= MAX_FLOAT_SIZE ==> r matches Ok(_),
        r matches Ok(n) ==> {
            &&& base == 10
            &&& 1 <= n <= cap
            &&& n <= MAX_FLOAT_SIZE
            &&& final(dest)@.len() == old(dest)@.len() + n
            &&& forall|i: int|
                0 <= i < old(dest)@.len() ==> final(dest)@[i] == #[trigger] old(dest)@[i]
            &&& is_zero32(bits) ==> final(dest)@ == old(dest)@ + seq![48u8]
            &&& is_nan32(bits) ==> final(dest)@ == old(dest)@ + seq![78u8, 97u8, 78u8]
            &&& (!is_zero32(bits) && !is_nan32(bits) && !is_inf32(bits)) ==> exists|
                dg: Seq<u8>,
                kk: int,
            |
                1 <= dg.len() <= 18 && all_decimal(dg) && dg[0] >= 49 && -359 <= kk <= 357
                    && grisu2_relates(f32_to_f64_bits_spec(bits), dg, kk) && final(dest)@
                    == old(dest)@ + sign_seq(f32_to_f64_bits_spec(bits)) + #[trigger] emit_spec(
                    dg,
                    kk,
                )
        },
{
    let wide: u64 = f32_bits_to_f64_bits(bits);
    f64toa_write(wide, base, dest, cap)
}

} // verus!
