use ftoa::{f32toa_bytes, f32toa_string, f32toa_write, f64toa_bytes, f64toa_string, f64toa_write, FtoaError, MAX_FLOAT_SIZE};

fn fmt64(x: f64) -> String {
    f64toa_string(x.to_bits(), 10).unwrap()
}

fn fmt32(x: f32) -> String {
    f32toa_string(x.to_bits(), 10).unwrap()
}

#[test]
fn f32toa_base2_test() {}

#[test]
fn f32toa_base10_test() {
    assert_eq!("1.234567", &fmt32(1.2345678901234567890e0)[..8]);
}

#[test]
fn f64toa_base10_prefix_test() {
    assert_eq!("1.234567", &fmt64(1.2345678901234567890e0)[..8]);
    assert_eq!("1.2345678901234567", fmt64(1.2345678901234567890e0));
}

#[test]
fn special_values_test() {
    assert_eq!("0", fmt64(0.0));
    assert_eq!("NaN", fmt64(f64::NAN));
    assert_eq!("Infinity", fmt64(f64::INFINITY));
    assert_eq!("-Infinity", fmt64(f64::NEG_INFINITY));
    assert_eq!("0", fmt32(0.0));
    assert_eq!("NaN", fmt32(f32::NAN));
    assert_eq!("Infinity", fmt32(f32::INFINITY));
    assert_eq!("-Infinity", fmt32(f32::NEG_INFINITY));
}

#[test]
fn negative_zero_test() {
    // negative zero formats as "0" with no sign
    assert_eq!("0", fmt64(-0.0));
    assert_eq!("0", fmt32(-0.0));
}

#[test]
fn plain_layouts_test() {
    assert_eq!("1", fmt64(1.0));
    assert_eq!("10", fmt64(10.0));
    assert_eq!("0.5", fmt64(0.5));
    assert_eq!("0.1", fmt64(0.1));
    assert_eq!("1.5", fmt64(1.5));
    assert_eq!("-2.5", fmt64(-2.5));
    assert_eq!("123456789", fmt64(123456789.0));
    assert_eq!("3.14159", fmt64(3.14159));
    assert_eq!("0.30000000000000004", fmt64(0.1 + 0.2));
}

#[test]
fn scientific_layout_test() {
    let s = fmt64(1e100);
    assert_eq!("1e+100", s);
    assert_eq!("1e-7", fmt64(1e-7));
    assert_eq!("1e+22", fmt64(1e22));
}

#[test]
fn exponent_sign_always_present_test() {
    // the scientific layout always carries an explicit exponent sign
    for &x in &[1e100, 1e22, 1e-7, 1e-300, 5e-324, f64::MAX] {
        let s = fmt64(x);
        if let Some(pos) = s.find('e') {
            let next = s.as_bytes()[pos + 1];
            assert!(next == b'+' || next == b'-', "no sign in {}", s);
        }
    }
}

#[test]
fn round_trip_f64_test() {
    let samples = [
        0.1,
        0.2,
        1.0 / 3.0,
        1.5,
        -1.5,
        123456789.0,
        1.2345678901234567,
        2.2250738585072014e-308,
        5e-324,
        f64::MAX,
        f64::MIN_POSITIVE,
        1e22,
        1e23,
        9007199254740993.0,
        -0.30000000000000004,
        6.02214076e23,
        2.718281828459045,
    ];
    for &x in &samples {
        let s = fmt64(x);
        let back: f64 = s.parse().unwrap();
        assert_eq!(x.to_bits(), back.to_bits(), "round trip failed for {}", s);
    }
}

#[test]
fn round_trip_f32_test() {
    let samples = [0.1f32, 1.5, -2.75, 3.4028235e38, 1.1754944e-38, 1e-45, 16777217.0];
    for &x in &samples {
        let s = fmt32(x);
        let back: f32 = s.parse().unwrap();
        assert_eq!(x.to_bits(), back.to_bits(), "round trip failed for {}", s);
    }
}

#[test]
fn minimality_test() {
    // dropping the last digit of the shortest form must lose the value
    for &x in &[0.1, 1.2345678901234567, 0.30000000000000004, 2.718281828459045] {
        let s = fmt64(x);
        let shorter = &s[..s.len() - 1];
        let back: f64 = shorter.parse().unwrap();
        assert_ne!(x.to_bits(), back.to_bits(), "still round trips: {}", shorter);
    }
}

#[test]
fn bytes_and_string_agree_test() {
    for &x in &[0.1, -2.5, 1e100, 0.0, f64::NAN, f64::INFINITY] {
        let b = f64toa_bytes(x.to_bits(), 10).unwrap();
        let s = f64toa_string(x.to_bits(), 10).unwrap();
        assert_eq!(String::from_utf8(b).unwrap(), s);
    }
}

#[test]
fn unsupported_base_test() {
    assert_eq!(f64toa_string(1.5f64.to_bits(), 2), Err(FtoaError::UnsupportedBase));
    assert_eq!(f64toa_bytes(1.5f64.to_bits(), 16), Err(FtoaError::UnsupportedBase));
    assert_eq!(f32toa_bytes(1.5f32.to_bits(), 8), Err(FtoaError::UnsupportedBase));
    let mut dest: Vec<u8> = Vec::new();
    assert_eq!(f64toa_write(1.5f64.to_bits(), 3, &mut dest, 60), Err(FtoaError::UnsupportedBase));
    assert!(dest.is_empty());
}

#[test]
fn buffer_capacity_test() {
    // every capacity from zero to the documented maximum: the writer
    // never exceeds the capacity, and reports exactly what it needed
    for &x in &[0.0, -0.0, 0.1, -123456.789, 1e100, f64::NAN, f64::NEG_INFINITY, 5e-324] {
        let expected = f64toa_bytes(x.to_bits(), 10).unwrap();
        for cap in 0..=MAX_FLOAT_SIZE {
            let mut dest: Vec<u8> = Vec::new();
            match f64toa_write(x.to_bits(), 10, &mut dest, cap) {
                Ok(n) => {
                    assert!(n <= cap);
                    assert_eq!(n, expected.len());
                    assert_eq!(dest, expected);
                }
                Err(FtoaError::BufferTooSmall { needed }) => {
                    assert!(needed > cap);
                    assert_eq!(needed, expected.len());
                    assert!(dest.is_empty());
                }
                Err(e) => panic!("unexpected error {:?}", e),
            }
        }
    }
}

#[test]
fn buffer_capacity_zero_test() {
    let mut dest: Vec<u8> = Vec::new();
    let r = f64toa_write(0.5f64.to_bits(), 10, &mut dest, 0);
    assert_eq!(r, Err(FtoaError::BufferTooSmall { needed: 3 }));
    assert!(dest.is_empty());
}

#[test]
fn write_appends_after_prefix_test() {
    let mut dest: Vec<u8> = vec![b'x'];
    let n = f32toa_write(2.5f32.to_bits(), 10, &mut dest, 10).unwrap();
    assert_eq!(n, 3);
    assert_eq!(dest, b"x2.5");
}

#[test]
fn widening_matches_cast_test() {
    for &x in &[0.0f32, -0.0, 1.0, -1.5, 0.1, 3.4028235e38, 1e-45, 1.1754942e-38, f32::INFINITY] {
        assert_eq!(
            ftoa::api::f32_bits_to_f64_bits(x.to_bits()),
            (x as f64).to_bits(),
            "widening differs for {}",
            x
        );
    }
}

#[test]
fn subnormal_f64_test() {
    let tiny = 5e-324;
    let s = fmt64(tiny);
    assert_eq!("5e-324", s);
    let back: f64 = s.parse().unwrap();
    assert_eq!(tiny.to_bits(), back.to_bits());
}

#[test]
fn output_length_within_max_test() {
    // the documented maximum capacity suffices for every value, and the
    // writer therefore always succeeds when given it
    let samples = [
        0.0,
        -0.0,
        0.1,
        5e-324,
        -5e-324,
        f64::MAX,
        f64::MIN,
        f64::MIN_POSITIVE,
        1e308,
        -1e-308,
        f64::NAN,
        f64::INFINITY,
        f64::NEG_INFINITY,
        123456.789,
    ];
    for &x in &samples {
        let v = f64toa_bytes(x.to_bits(), 10).unwrap();
        assert!(v.len() <= MAX_FLOAT_SIZE);
        let mut dest: Vec<u8> = Vec::new();
        let n = f64toa_write(x.to_bits(), 10, &mut dest, MAX_FLOAT_SIZE).unwrap();
        assert_eq!(n, v.len());
    }
}

#[test]
fn no_leading_zero_test() {
    // the digit sequence never starts with a zero digit; a leading "0"
    // appears only as the fixed text for zero or as the "0." prefix
    for &x in &[0.1, 0.0001, 5e-324, 1.0, 9.999999999999999e22, -0.25] {
        let s = fmt64(x);
        let t = s.trim_start_matches('-');
        if t.starts_with('0') {
            assert!(t.starts_with("0."), "unexpected leading zero in {}", s);
        }
    }
}

#[test]
fn output_character_set_test() {
    // every byte of a finite value's text is a digit, a point, the
    // exponent marker or a sign
    for &x in &[0.1, -123456.789, 5e-324, 1e100, f64::MAX, -1e-308] {
        for &b in f64toa_bytes(x.to_bits(), 10).unwrap().iter() {
            assert!(
                b.is_ascii_digit() || b == b'.' || b == b'e' || b == b'+' || b == b'-',
                "unexpected byte {} in output for {}",
                b,
                x
            );
        }
    }
}
