use vstd::prelude::*;
use vstd::arithmetic::power2::{pow2, lemma2_to64, lemma2_to64_rest};
use vstd::bits::{lemma_u64_shr_is_div, lemma_u64_shl_is_mul};
use crate::value::Value;

verus! {

/// Why a value cannot be used as a table key.
#[derive(Clone, Copy, Debug, PartialEq, Eq, Structural)]
pub enum InvalidTableKey {
    IsNaN,
    IsNil,
}

/// The biased exponent field of a float's bit pattern.
pub open spec fn exponent_of(bits: u64) -> nat {
    (bits as nat / pow2(52)) % 2048
}

/// The mantissa field of a float's bit pattern.
pub open spec fn mantissa_of(bits: u64) -> nat {
    bits as nat % pow2(52)
}

/// The sign bit of a float's bit pattern.
pub open spec fn is_negative(bits: u64) -> bool {
    bits as nat >= pow2(63)
}

pub open spec fn is_nan_bits(bits: u64) -> bool {
    exponent_of(bits) == 2047 && mantissa_of(bits) != 0
}

/// Both `+0.0` and `-0.0`.
pub open spec fn is_zero_bits(bits: u64) -> bool {
    bits as nat % pow2(63) == 0
}

/// The magnitude of a finite float, when it is an integer.
pub open spec fn integral_magnitude(bits: u64) -> Option<nat> {
    let e = exponent_of(bits);
    let m = mantissa_of(bits);
    let full = pow2(52) + m;
    if e == 2047 {
        None
    } else if e == 0 {
        if m == 0 { Some(0) } else { None }
    } else if e >= 1075 {
        Some(full * pow2((e - 1075) as nat))
    } else if full % pow2((1075 - e) as nat) == 0 {
        Some(full / pow2((1075 - e) as nat))
    } else {
        None
    }
}

/// The integer a float equals, when it is finite and integral.
pub open spec fn float_integer(bits: u64) -> Option<int> {
    match integral_magnitude(bits) {
        Some(mag) => Some(if is_negative(bits) { -mag } else { mag as int }),
        None => None,
    }
}

/// The integer `i` with `(n as i64) as f64 == n`, if there is one. The cast
/// saturates, so `2^63` itself comes back as `i64::MAX`.
pub open spec fn float_to_i64(bits: u64) -> Option<i64> {
    match float_integer(bits) {
        Some(v) => if i64::MIN <= v <= i64::MAX {
            Some(v as i64)
        } else if v == i64::MAX + 1 {
            Some(i64::MAX)
        } else {
            None
        },
        None => None,
    }
}

/// The key under which `v` is stored, or why it cannot be a key.
pub open spec fn canonical(v: Value) -> Result<Value, InvalidTableKey> {
    match v {
        Value::Nil => Err(InvalidTableKey::IsNil),
        Value::Number(n) => if is_nan_bits(n) {
            Err(InvalidTableKey::IsNaN)
        } else {
            match float_to_i64(n) {
                Some(i) => Ok(Value::Integer(i)),
                None => Ok(v),
            }
        },
        _ => Ok(v),
    }
}

/// A value that is its own canonical key.
pub open spec fn is_canonical(v: Value) -> bool {
    canonical(v) == Ok::<Value, InvalidTableKey>(v)
}

/// The array slot of a key: `i - 1` for an integral key `i` in `1..=usize::MAX`.
pub open spec fn array_index(v: Value) -> Option<usize> {
    let i: Option<i64> = match v {
        Value::Integer(i) => Some(i),
        Value::Number(n) => float_to_i64(n),
        _ => None,
    };
    match i {
        Some(i) => if 0 < i && i <= usize::MAX { Some((i - 1) as usize) } else { None },
        None => None,
    }
}

/// Float equality on bit patterns: NaN equals nothing, the two zeros are equal.
pub open spec fn float_eq(a: u64, b: u64) -> bool {
    !is_nan_bits(a) && !is_nan_bits(b) && (a == b || (is_zero_bits(a) && is_zero_bits(b)))
}

/// Raw equality of keys: by variant, and by contents within a variant.
pub open spec fn keys_equal(a: Value, b: Value) -> bool {
    match (a, b) {
        (Value::Number(x), Value::Number(y)) => float_eq(x, y),
        _ => a == b,
    }
}

/// The number of binary digits of `i`: 0 for 0, 1 for 1, 2 for 2 and 3, ...
pub open spec fn bit_length(i: nat) -> nat
    decreases i,
{
    if i == 0 { 0 } else { 1 + bit_length(i / 2) }
}

proof fn lemma_bit_length_bound(n: nat, k: nat)
    requires
        n < pow2(k),
    ensures
        bit_length(n) <= k,
    decreases n,
{
    if n > 0 {
        if k == 0 {
            lemma2_to64();
        } else {
            vstd::arithmetic::power2::lemma_pow2_unfold(k);
            lemma_bit_length_bound(n / 2, (k - 1) as nat);
        }
    }
}

/// `n` needs at most `k` binary digits exactly when it is below `2^k`; a
/// positive `n` is at least `2^(bit_length(n) - 1)`.
pub proof fn lemma_bit_length_pow2(n: nat, k: nat)
    ensures
        (bit_length(n) <= k) == (n < pow2(k)),
        n >= 1 ==> pow2((bit_length(n) - 1) as nat) <= n,
    decreases n,
{
    vstd::arithmetic::power2::lemma_pow2_pos(k);
    lemma2_to64();
    if n < pow2(k) {
        lemma_bit_length_bound(n, k);
    }
    if n > 0 {
        if k > 0 {
            vstd::arithmetic::power2::lemma_pow2_unfold(k);
            lemma_bit_length_pow2(n / 2, (k - 1) as nat);
        } else {
            lemma_bit_length_pow2(n / 2, 0);
        }
        if n > 1 {
            vstd::arithmetic::power2::lemma_pow2_unfold((bit_length(n) - 1) as nat);
        }
    }
}

fn float_fields(bits: u64) -> (r: (u64, u64, bool))
    ensures
        r.0 == exponent_of(bits),
        r.1 == mantissa_of(bits),
        r.2 == is_negative(bits),
        r.0 < 2048,
        r.1 < pow2(52),
{
    proof {
        lemma2_to64();
        lemma2_to64_rest();
        lemma_u64_shr_is_div(bits, 52);
    }
    let e: u64 = (bits >> 52u64) % 2048;
    let m: u64 = bits % 0x10_0000_0000_0000;
    (e, m, bits >= 0x8000_0000_0000_0000)
}

/// Whether a float's bit pattern is a NaN.
pub fn is_nan(bits: u64) -> (r: bool)
    ensures
        r == is_nan_bits(bits),
{
    let (e, m, _) = float_fields(bits);
    e == 2047 && m != 0
}

/// The integer equal to a float, as the round trip through a saturating cast
/// finds it.
pub fn f64_to_i64(bits: u64) -> (r: Option<i64>)
    ensures
        r == float_to_i64(bits),
{
    proof {
        lemma2_to64();
        lemma2_to64_rest();
    }
    let (e, m, neg) = float_fields(bits);
    if e == 2047 {
        return None;
    }
    if e == 0 {
        return if m == 0 { Some(0) } else { None };
    }
    let full: u64 = 0x10_0000_0000_0000 + m;
    if e >= 1075 {
        let s: u64 = e - 1075;
        if e > 1086 {
            proof {
                vstd::arithmetic::power2::lemma_pow2_adds(12, (s - 12) as nat);
                vstd::arithmetic::power2::lemma_pow2_pos((s - 12) as nat);
                assert(full * pow2(s as nat) >= pow2(52) * pow2(12)) by (nonlinear_arith)
                    requires full >= pow2(52), pow2(s as nat) == pow2(12) * pow2((s - 12) as nat),
                        pow2((s - 12) as nat) >= 1;
            }
            return None;
        }
        if e == 1086 {
            return if m == 0 {
                if neg { Some(i64::MIN) } else { Some(i64::MAX) }
            } else {
                assert(full * pow2(s as nat) > pow2(63) + 1) by (nonlinear_arith)
                    requires full > pow2(52), pow2(s as nat) == 2048, pow2(63) == pow2(52) * 2048;
                None
            };
        }
        proof {
            assert(pow2(s as nat) <= 1024) by {
                assert(s <= 10);
                if s < 10 {
                    vstd::arithmetic::power2::lemma_pow2_strictly_increases(s as nat, 10);
                }
            }
            assert(full * pow2(s as nat) < pow2(63)) by (nonlinear_arith)
                requires full < 2 * pow2(52), pow2(s as nat) <= 1024, pow2(63) == pow2(52) * 2048;
            lemma_u64_shl_is_mul(full, s);
        }
        let mag: u64 = full << s;
        if neg { Some(-(mag as i64)) } else { Some(mag as i64) }
    } else {
        let r: u64 = 1075 - e;
        if r > 52 {
            proof {
                if r > 53 {
                    vstd::arithmetic::power2::lemma_pow2_strictly_increases(53, r as nat);
                }
                vstd::arithmetic::div_mod::lemma_small_mod(full as nat, pow2(r as nat));
            }
            return None;
        }
        proof {
            lemma_u64_shl_is_mul(1, r);
            lemma_u64_shr_is_div(full, r);
            vstd::arithmetic::power2::lemma_pow2_pos(r as nat);
            vstd::arithmetic::div_mod::lemma_div_is_ordered_by_denominator(full as int, 1, pow2(r as nat) as int);
        }
        let unit: u64 = 1u64 << r;
        if full % unit != 0 {
            return None;
        }
        let mag: u64 = full >> r;
        if neg { Some(-(mag as i64)) } else { Some(mag as i64) }
    }
}

/// Reject `Nil` and NaN; fold integral floats into integers.
pub fn canonical_key(v: Value) -> (r: Result<Value, InvalidTableKey>)
    ensures
        r == canonical(v),
{
    match v {
        Value::Nil => Err(InvalidTableKey::IsNil),
        Value::Number(n) => {
            if is_nan(n) {
                Err(InvalidTableKey::IsNaN)
            } else {
                match f64_to_i64(n) {
                    Some(i) => Ok(Value::Integer(i)),
                    None => Ok(v),
                }
            }
        },
        _ => Ok(v),
    }
}

/// Equality of keys: structural within a variant, floats compared as floats.
pub fn key_eq(a: Value, b: Value) -> (r: bool)
    ensures
        r == keys_equal(a, b),
{
    match (a, b) {
        (Value::Number(x), Value::Number(y)) => {
            !is_nan(x) && !is_nan(y) && (x == y || (canonical_float_bytes(x) == 0
                && canonical_float_bytes(y) == 0))
        },
        _ => a == b,
    }
}

/// A bit pattern that is equal for equal floats: `-0.0` becomes `+0.0`.
pub fn canonical_float_bytes(bits: u64) -> (r: u64)
    requires
        !is_nan_bits(bits),
    ensures
        r == (if is_zero_bits(bits) { 0 } else { bits }),
        r == 0 <==> is_zero_bits(bits),
{
    proof {
        lemma2_to64_rest();
    }
    if bits % 0x8000_0000_0000_0000 == 0 {
        0
    } else {
        bits
    }
}

/// The array slot for a key that can live in the array part.
pub fn to_array_index(key: Value) -> (r: Option<usize>)
    ensures
        r == array_index(key),
{
    let i: i64 = match key {
        Value::Integer(i) => i,
        Value::Number(n) => match f64_to_i64(n) {
            Some(i) => i,
            None => return None,
        },
        _ => return None,
    };
    if i > 0 && (i as u64) <= (usize::MAX as u64) {
        Some((i - 1) as usize)
    } else {
        None
    }
}

/// The place of the highest set bit: 0 for 0, 1 for 1, 2 for 2 and 3, and so on.
pub fn highest_bit(i: usize) -> (r: usize)
    ensures
        r == bit_length(i as nat),
        r <= 64,
{
    proof {
        lemma2_to64_rest();
        lemma_bit_length_bound(i as nat, 64);
    }
    let mut n: usize = i;
    let mut hb: usize = 0;
    while n > 0
        invariant
            hb + bit_length(n as nat) == bit_length(i as nat),
            hb + bit_length(n as nat) <= 64,
            n as nat <= usize::MAX,
        decreases n,
    {
        n = n / 2;
        hb = hb + 1;
    }
    hb
}

/// What FxHash makes of a key's variant tag followed by its contents word.
pub uninterp spec fn fx_hash(tag: u64, payload: u64) -> u64;

/// Relies on `rustc_hash::FxHasher`: a fresh (unseeded) hasher fed two words
/// with `write_u64` gives a hash that depends on those words alone.
#[verifier::external_body]
fn fx_hash_words(tag: u64, payload: u64) -> (r: u64)
    ensures
        r == fx_hash(tag, payload),
{
    let mut state = rustc_hash::FxHasher::default();
    std::hash::Hasher::write_u64(&mut state, tag);
    std::hash::Hasher::write_u64(&mut state, payload);
    std::hash::Hasher::finish(&state)
}

/// A per-variant tag, and the word that stands for the contents.
pub open spec fn hash_words(v: Value) -> (u64, u64) {
    match v {
        Value::Nil => (0, 0),
        Value::Boolean(b) => (1, if b { 1 } else { 0 }),
        Value::Integer(i) => (2, i as u64),
        Value::Number(n) => (3, if is_zero_bits(n) { 0 } else { n }),
        Value::String(h) => (4, h),
        Value::Table(t) => (5, t.0 as u64),
        Value::Function(h) => (6, h),
        Value::Thread(h) => (7, h),
        Value::UserData(h) => (8, h),
    }
}

pub open spec fn key_hash_of(v: Value) -> u64 {
    fx_hash(hash_words(v).0, hash_words(v).1)
}

pub open spec fn not_nan(v: Value) -> bool {
    match v {
        Value::Number(n) => !is_nan_bits(n),
        _ => true,
    }
}

/// Hash of a key: its variant tag mixed with its contents, the float zeros
/// hashing alike.
pub fn key_hash(v: Value) -> (r: u64)
    requires
        not_nan(v),
    ensures
        r == key_hash_of(v),
{
    let (tag, payload): (u64, u64) = match v {
        Value::Nil => (0, 0),
        Value::Boolean(b) => (1, if b { 1 } else { 0 }),
        Value::Integer(i) => (2, i as u64),
        Value::Number(n) => (3, canonical_float_bytes(n)),
        Value::String(h) => (4, h),
        Value::Table(t) => (5, t.0 as u64),
        Value::Function(h) => (6, h),
        Value::Thread(h) => (7, h),
        Value::UserData(h) => (8, h),
    };
    fx_hash_words(tag, payload)
}

} // verus!
