//! Properties of the table that relate several calls.

use vstd::prelude::*;
use vstd::arithmetic::power2::{pow2, lemma2_to64, lemma2_to64_rest};
use crate::value::{Value, NextValue, follows, first_of, distinct_keys};
use crate::key::{canonical, is_canonical, float_to_i64, is_nan_bits, exponent_of, mantissa_of};
use crate::entries::{TableEntries, value_at, updated, has_int, is_border, lemma_follows_at};

verus! {

/// The mapping after the writes `ops`, one after another, starting from `m`.
pub open spec fn apply_all(m: Map<Value, Value>, ops: Seq<(Value, Value)>) -> Map<Value, Value>
    decreases ops.len(),
{
    if ops.len() == 0 {
        m
    } else {
        updated(apply_all(m, ops.drop_last()), ops.last().0, ops.last().1)
    }
}

/// After a run of writes with valid keys and non-`Nil` values, each key reads
/// back the value of the last write to it.
pub proof fn law_round_trip(m: Map<Value, Value>, ops: Seq<(Value, Value)>, i: int)
    requires
        forall|j: int| 0 <= j < ops.len() ==> (#[trigger] canonical(ops[j].0)) is Ok,
        forall|j: int| 0 <= j < ops.len() ==> (#[trigger] ops[j].1) != Value::Nil,
        0 <= i < ops.len(),
        forall|j: int| i < j < ops.len() ==> #[trigger] canonical(ops[j].0) != canonical(ops[i].0),
    ensures
        value_at(apply_all(m, ops), ops[i].0) == ops[i].1,
    decreases ops.len(),
{
    let n = ops.len() - 1;
    assert(canonical(ops[n].0) is Ok);
    assert(ops[n].1 != Value::Nil);
    if i < n {
        let d = ops.drop_last();
        assert forall|j: int| i < j < d.len() implies #[trigger] canonical(d[j].0) != canonical(d[i].0) by {
            assert(d[j] == ops[j]);
        }
        assert forall|j: int| 0 <= j < d.len() implies (#[trigger] canonical(d[j].0)) is Ok by {
            assert(d[j] == ops[j]);
        }
        assert forall|j: int| 0 <= j < d.len() implies (#[trigger] d[j].1) != Value::Nil by {
            assert(d[j] == ops[j]);
        }
        law_round_trip(m, d, i);
        assert(canonical(ops[n].0) != canonical(ops[i].0));
    }
}

/// Writing `Nil` deletes: the key reads back `Nil`, and an integer key
/// `j >= 1` that was deleted is no border of what remains.
pub proof fn law_delete(m: Map<Value, Value>, k: Value)
    requires
        canonical(k) is Ok,
    ensures
        value_at(updated(m, k, Value::Nil), k) == Value::Nil,
        !updated(m, k, Value::Nil).contains_key(canonical(k)->Ok_0),
        forall|j: i64|
            canonical(k)->Ok_0 == Value::Integer(j) && j >= 1 ==> !is_border(
                updated(m, k, Value::Nil),
                j as int,
            ),
{
}

/// An integral float and the integer it equals are one key, for reading and
/// for writing.
pub proof fn law_integral_float_key(m: Map<Value, Value>, n: u64, v: Value)
    requires
        !is_nan_bits(n),
        float_to_i64(n) is Some,
    ensures
        value_at(m, Value::Number(n)) == value_at(m, Value::Integer(float_to_i64(n)->Some_0)),
        updated(m, Value::Number(n), v) == updated(m, Value::Integer(float_to_i64(n)->Some_0), v),
{
}

/// `-0.0` and `+0.0` are one key (the integer 0).
pub proof fn law_signed_zero(m: Map<Value, Value>)
    ensures
        value_at(m, Value::Number(0x8000_0000_0000_0000)) == value_at(m, Value::Number(0)),
        value_at(m, Value::Number(0)) == value_at(m, Value::Integer(0)),
{
    lemma2_to64();
    lemma2_to64_rest();
    let neg: u64 = 0x8000_0000_0000_0000;
    vstd::arithmetic::power2::lemma_pow2_adds(52, 11);
    vstd::arithmetic::div_mod::lemma_div_multiples_vanish(2048, pow2(52) as int);
    vstd::arithmetic::div_mod::lemma_mod_multiples_basic(2048, pow2(52) as int);
    assert(exponent_of(neg) == 0);
    assert(mantissa_of(neg) == 0);
    assert(exponent_of(0) == 0);
    assert(mantissa_of(0) == 0);
    assert(float_to_i64(neg) == Some(0i64));
    assert(float_to_i64(0) == Some(0i64));
}

/// When the integer keys with values are exactly `1..=n`, `n` is the only
/// border, so it is what `length` returns.
pub proof fn law_sequence_length(m: Map<Value, Value>, n: int, i: int)
    requires
        0 <= n <= i64::MAX,
        forall|j: int| #[trigger] has_int(m, j) <==> 1 <= j <= n,
        is_border(m, i),
    ensures
        i == n,
{
    assert(has_int(m, i) <==> 1 <= i <= n);
    assert(has_int(m, i + 1) <==> 1 <= i + 1 <= n);
}

/// Walking with `next` from `Nil` and then from each key it returns visits
/// every pair of the table once and ends with `Last`.
pub proof fn law_iteration_covers(t: &TableEntries)
    requires
        t.wf(),
    ensures
        distinct_keys(t.order()),
        forall|p: int|
            0 <= p < t.order().len() ==> #[trigger] t@.contains_key(t.order()[p].0) && t@[t.order()[p].0]
                == t.order()[p].1,
        forall|k: Value|
            #[trigger] t@.contains_key(k) ==> exists|p: int|
                0 <= p < t.order().len() && t.order()[p].0 == k,
        forall|p: int|
            0 <= p < t.order().len() ==> is_canonical(#[trigger] t.order()[p].0) && t.order()[p].1
                != Value::Nil,
        t.order().len() == 0 ==> first_of(t.order()) == NextValue::Last,
        t.order().len() > 0 ==> first_of(t.order()) == (NextValue::Found {
            key: t.order()[0].0,
            value: t.order()[0].1,
        }),
        forall|p: int|
            0 <= p < t.order().len() - 1 ==> follows(t.order(), #[trigger] t.order()[p].0) == (
            NextValue::Found { key: t.order()[p + 1].0, value: t.order()[p + 1].1 }),
        t.order().len() > 0 ==> follows(t.order(), t.order()[t.order().len() - 1].0)
            == NextValue::Last,
{
    t.lemma_order();
    let o = t.order();
    assert forall|p: int| 0 <= p < o.len() implies is_canonical(#[trigger] o[p].0) && o[p].1
        != Value::Nil by {
        assert(t@.contains_key(o[p].0));
    }
    assert forall|p: int| 0 <= p < o.len() - 1 implies follows(o, #[trigger] o[p].0) == (
    NextValue::Found { key: o[p + 1].0, value: o[p + 1].1 }) by {
        lemma_follows_at(o, o[p].0, p);
    }
    if o.len() > 0 {
        lemma_follows_at(o, o[o.len() - 1].0, o.len() - 1);
    }
}

} // verus!
