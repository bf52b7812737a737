use segsweep::codec::{decode_bits, encode_bits, DecodeError};

fn lcg_next(state: &mut u64) -> u64 {
    *state = state.wrapping_mul(6364136223846793005).wrapping_add(1442695040888963407);
    *state
}

#[test]
fn encode_zero_is_all_zeros() {
    let s = encode_bits(0);
    assert_eq!(s.len(), 64);
    assert!(s.chars().all(|c| c == '0'));
}

#[test]
fn encode_one_bit_pattern_of_one() {
    // 1.0f64 has the bit pattern 0x3FF0000000000000.
    let s = encode_bits(0x3FF0_0000_0000_0000);
    let mut expected = String::from("0011111111110000");
    expected.push_str(&"0".repeat(48));
    assert_eq!(s, expected);
}

#[test]
fn decode_rejects_wrong_length() {
    assert_eq!(decode_bits("101"), Err(DecodeError::BadLength));
    assert_eq!(decode_bits(""), Err(DecodeError::BadLength));
    let long = "0".repeat(65);
    assert_eq!(decode_bits(&long), Err(DecodeError::BadLength));
}

#[test]
fn decode_rejects_bad_character() {
    let mut s = "0".repeat(63);
    s.push('x');
    assert_eq!(decode_bits(&s), Err(DecodeError::BadChar));
    let mut t = "1".repeat(63);
    t.push('2');
    assert_eq!(decode_bits(&t), Err(DecodeError::BadChar));
}

#[test]
fn round_trip_special_patterns() {
    // Zero, negative zero, smallest subnormal, 1.0, largest finite, all ones.
    let patterns: [u64; 7] = [
        0,
        0x8000_0000_0000_0000,
        0x0000_0000_0000_0001,
        0x3FF0_0000_0000_0000,
        0x7FEF_FFFF_FFFF_FFFF,
        u64::MAX,
        0xDEAD_BEEF_CAFE_F00D,
    ];
    for &b in patterns.iter() {
        assert_eq!(decode_bits(&encode_bits(b)), Ok(b));
    }
}

#[test]
fn round_trip_finite_doubles() {
    // The encoding reproduces the exact bit pattern of finite doubles,
    // including negative zero and subnormals.
    let values: [f64; 6] = [0.75, -0.0, 1.5e-310, -3.25, 1e300, f64::MIN_POSITIVE];
    for &v in values.iter() {
        let bits = v.to_bits();
        let decoded = decode_bits(&encode_bits(bits)).unwrap();
        assert_eq!(decoded, bits);
        assert_eq!(f64::from_bits(decoded).to_bits(), bits);
    }
}

#[test]
fn round_trip_random_patterns() {
    let mut state: u64 = 42;
    for _ in 0..200 {
        let b = lcg_next(&mut state);
        assert_eq!(decode_bits(&encode_bits(b)), Ok(b));
    }
}
