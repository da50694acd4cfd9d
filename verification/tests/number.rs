use mini_v8::number::{dbl_encode, log2_floor_u64, pow2_u64};
use mini_v8::conversion::{number_to_i64, number_to_u64, number_to_text};

#[test]
fn encode_matches_hardware_floats() {
    let cases: Vec<u64> = vec![
        0,
        1,
        2,
        3,
        7,
        123,
        4096,
        9007199254740991,
        9007199254740992,
        9007199254740993,
        18446744073709551615,
        12345678901234567890,
        1 << 63,
    ];
    for m in cases {
        assert_eq!(dbl_encode(m, false), (m as f64).to_bits(), "magnitude {}", m);
    }
    let signed: Vec<i64> = vec![-1, -2, -123, -9007199254740991, i64::MIN];
    for x in signed {
        let mag = x.unsigned_abs();
        assert_eq!(dbl_encode(mag, true), (x as f64).to_bits(), "value {}", x);
    }
}

#[test]
fn truncation_matches_hardware_casts() {
    let cases: Vec<f64> = vec![
        0.0,
        -0.0,
        0.5,
        -0.5,
        1.0,
        1.9,
        -1.9,
        123.75,
        1e18,
        -1e18,
        1e300,
        -1e300,
        f64::INFINITY,
        f64::NEG_INFINITY,
        f64::NAN,
    ];
    for x in cases {
        assert_eq!(number_to_i64(x.to_bits()), x as i64, "value {}", x);
        assert_eq!(number_to_u64(x.to_bits()), x as u64, "value {}", x);
    }
}

#[test]
fn number_text_integrals() {
    assert_eq!(number_to_text((0.0f64).to_bits()), "0");
    assert_eq!(number_to_text((-0.0f64).to_bits()), "0");
    assert_eq!(number_to_text((123.0f64).to_bits()), "123");
    assert_eq!(number_to_text((-7.0f64).to_bits()), "-7");
    assert_eq!(number_to_text(f64::NAN.to_bits()), "NaN");
    assert_eq!(number_to_text(f64::INFINITY.to_bits()), "Infinity");
    assert_eq!(number_to_text(f64::NEG_INFINITY.to_bits()), "-Infinity");
    assert_eq!(number_to_text((1.5f64).to_bits()), "number");
}

#[test]
fn helpers_agree_with_hardware() {
    assert_eq!(pow2_u64(0), 1);
    assert_eq!(pow2_u64(52), 1 << 52);
    assert_eq!(pow2_u64(63), 1 << 63);
    assert_eq!(log2_floor_u64(1), 0);
    assert_eq!(log2_floor_u64(2), 1);
    assert_eq!(log2_floor_u64(3), 1);
    assert_eq!(log2_floor_u64(u64::MAX), 63);
}
