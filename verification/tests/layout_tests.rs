use ftoa::api::{filter_special, fpconv_dtoa};
use ftoa::digits::grisu2;
use ftoa::emit::{emit_digits, exponent_notation_char};

#[test]
fn exponent_notation_char_test() {
    assert_eq!(b'e', exponent_notation_char(10));
    assert_eq!(b'e', exponent_notation_char(14));
    assert_eq!(b'^', exponent_notation_char(15));
    assert_eq!(b'^', exponent_notation_char(36));
}

#[test]
fn emit_plain_integer_test() {
    let digits = vec![b'1', b'2', b'5'];
    let mut out: Vec<u8> = Vec::new();
    let n = emit_digits(&digits, &mut out, 1);
    assert_eq!(n, 4);
    assert_eq!(out, b"1250");
}

#[test]
fn emit_plain_decimal_test() {
    let digits = vec![b'1', b'2', b'5'];
    let mut out: Vec<u8> = Vec::new();
    let n = emit_digits(&digits, &mut out, -2);
    assert_eq!(n, 4);
    assert_eq!(out, b"1.25");

    let mut out2: Vec<u8> = Vec::new();
    let n2 = emit_digits(&digits, &mut out2, -5);
    assert_eq!(n2, 7);
    assert_eq!(out2, b"0.00125");
}

#[test]
fn emit_scientific_test() {
    let digits = vec![b'1', b'2', b'5'];
    let mut out: Vec<u8> = Vec::new();
    let n = emit_digits(&digits, &mut out, -9);
    assert_eq!(n, 7);
    assert_eq!(out, b"1.25e-7");
    assert_eq!(n, out.len());

    let mut out2: Vec<u8> = Vec::new();
    emit_digits(&digits, &mut out2, 100);
    assert_eq!(out2, b"1.25e+102");

    // a three-digit exponent keeps its middle zero
    let one = vec![b'7'];
    let mut out3: Vec<u8> = Vec::new();
    emit_digits(&one, &mut out3, 304);
    assert_eq!(out3, b"7e+304");
}

#[test]
fn filter_special_direct_test() {
    let mut out: Vec<u8> = Vec::new();
    assert_eq!(filter_special(0, &mut out), 1);
    assert_eq!(out, b"0");

    let mut out2: Vec<u8> = Vec::new();
    assert_eq!(filter_special(f64::NAN.to_bits(), &mut out2), 3);
    assert_eq!(out2, b"NaN");

    let mut out3: Vec<u8> = Vec::new();
    assert_eq!(filter_special(f64::INFINITY.to_bits(), &mut out3), 8);
    assert_eq!(out3, b"Infinity");

    let mut out4: Vec<u8> = Vec::new();
    assert_eq!(filter_special(1.5f64.to_bits(), &mut out4), 0);
    assert!(out4.is_empty());
}

#[test]
fn grisu2_digits_test() {
    // 0.1 scales to the shortest digit string "1" with decimal weight -1
    let mut digits: Vec<u8> = Vec::new();
    let mut k: i32 = 0;
    let n = grisu2(0.1f64.to_bits(), &mut digits, &mut k);
    assert_eq!(n, 1);
    assert_eq!(digits, b"1");
    assert_eq!(k, -1);

    let mut digits2: Vec<u8> = Vec::new();
    let mut k2: i32 = 0;
    let n2 = grisu2(123.456f64.to_bits(), &mut digits2, &mut k2);
    assert_eq!(&digits2[..], b"123456");
    assert_eq!(k2, -3);
    assert_eq!(n2, 6);
}

#[test]
fn fpconv_dtoa_appends_test() {
    let mut out: Vec<u8> = b"value: ".to_vec();
    let n = fpconv_dtoa(2.5f64.to_bits(), &mut out);
    assert_eq!(n, 3);
    assert_eq!(out, b"value: 2.5");
}
