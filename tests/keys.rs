use lua_table::key::{
    canonical_float_bytes, canonical_key, f64_to_i64, highest_bit, is_nan, key_eq, key_hash,
    to_array_index, InvalidTableKey,
};
use lua_table::value::Value;

fn num(f: f64) -> Value {
    Value::Number(f.to_bits())
}

#[test]
fn float_to_integer() {
    assert_eq!(f64_to_i64(3.0f64.to_bits()), Some(3));
    assert_eq!(f64_to_i64((-7.0f64).to_bits()), Some(-7));
    assert_eq!(f64_to_i64(0.5f64.to_bits()), None);
    assert_eq!(f64_to_i64((-0.0f64).to_bits()), Some(0));
    assert_eq!(f64_to_i64(f64::INFINITY.to_bits()), None);
    assert_eq!(f64_to_i64(f64::NAN.to_bits()), None);
    assert_eq!(f64_to_i64(1e300f64.to_bits()), None);
    assert_eq!(f64_to_i64(9007199254740992.0f64.to_bits()), Some(9007199254740992));
    assert_eq!(f64_to_i64((-9223372036854775808.0f64).to_bits()), Some(i64::MIN));
    assert_eq!(f64_to_i64(9223372036854775808.0f64.to_bits()), Some(i64::MAX));
    assert_eq!(f64_to_i64(f64::MIN_POSITIVE.to_bits()), None);
    assert_eq!(f64_to_i64(4503599627370495.5f64.to_bits()), None);
    for i in [-1000i64, -1, 1, 2, 1023, 1 << 40, (1 << 53) + 2, 1 << 62] {
        assert_eq!(f64_to_i64((i as f64).to_bits()), Some(i));
    }
}

#[test]
fn nan_detection() {
    assert!(is_nan(f64::NAN.to_bits()));
    assert!(!is_nan(f64::INFINITY.to_bits()));
    assert!(!is_nan(1.5f64.to_bits()));
}

#[test]
fn canonical_keys() {
    assert_eq!(canonical_key(Value::Nil), Err(InvalidTableKey::IsNil));
    assert_eq!(canonical_key(num(f64::NAN)), Err(InvalidTableKey::IsNaN));
    assert_eq!(canonical_key(num(3.0)), Ok(Value::Integer(3)));
    assert_eq!(canonical_key(num(-0.0)), Ok(Value::Integer(0)));
    assert_eq!(canonical_key(num(2.5)), Ok(num(2.5)));
    assert_eq!(canonical_key(Value::Boolean(true)), Ok(Value::Boolean(true)));
    let once = canonical_key(num(8.0)).unwrap();
    assert_eq!(canonical_key(once), Ok(once));
}

#[test]
fn key_equality() {
    assert!(key_eq(Value::Integer(1), Value::Integer(1)));
    assert!(!key_eq(Value::Boolean(true), Value::Integer(1)));
    assert!(key_eq(num(0.0), num(-0.0)));
    assert!(!key_eq(num(f64::NAN), num(f64::NAN)));
    assert!(key_eq(Value::Nil, Value::Nil));
    assert!(!key_eq(Value::String(1), Value::String(2)));
}

#[test]
fn float_bytes_and_hashes() {
    assert_eq!(canonical_float_bytes((-0.0f64).to_bits()), 0);
    assert_eq!(canonical_float_bytes(1.5f64.to_bits()), 1.5f64.to_bits());
    assert_eq!(key_hash(num(0.0)), key_hash(num(-0.0)));
    assert_eq!(key_hash(Value::Integer(5)), key_hash(Value::Integer(5)));
    assert_ne!(key_hash(Value::Integer(5)), key_hash(Value::Integer(6)));
    assert_ne!(key_hash(Value::Integer(5)), 5);
    let mut h = rustc_hash::FxHasher::default();
    std::hash::Hasher::write_u64(&mut h, 2);
    std::hash::Hasher::write_u64(&mut h, 5);
    assert_eq!(key_hash(Value::Integer(5)), std::hash::Hasher::finish(&h));
}

#[test]
fn array_indices() {
    assert_eq!(to_array_index(Value::Integer(1)), Some(0));
    assert_eq!(to_array_index(Value::Integer(0)), None);
    assert_eq!(to_array_index(Value::Integer(-3)), None);
    assert_eq!(to_array_index(num(4.0)), Some(3));
    assert_eq!(to_array_index(num(4.5)), None);
    assert_eq!(to_array_index(Value::String(1)), None);
}

#[test]
fn highest_bits() {
    assert_eq!(highest_bit(0), 0);
    assert_eq!(highest_bit(1), 1);
    assert_eq!(highest_bit(2), 2);
    assert_eq!(highest_bit(3), 2);
    assert_eq!(highest_bit(4), 3);
    assert_eq!(highest_bit(255), 8);
    assert_eq!(highest_bit(256), 9);
    assert_eq!(highest_bit(usize::MAX), 64);
}
