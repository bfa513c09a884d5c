use std::collections::HashMap;
use lua_table::entries::TableEntries;
use lua_table::key::InvalidTableKey;
use lua_table::table::{Table, TableArena};
use lua_table::value::{NextValue, Value};

fn num(f: f64) -> Value {
    Value::Number(f.to_bits())
}

fn integer(i: i64) -> Value {
    Value::Integer(i)
}

fn walk(t: Table, arena: &TableArena) -> Vec<(Value, Value)> {
    let mut out = Vec::new();
    let mut key = Value::Nil;
    loop {
        match t.next(arena, key) {
            NextValue::Found { key: k, value } => {
                out.push((k, value));
                key = k;
            }
            NextValue::Last => return out,
            NextValue::NotFound => panic!("key vanished during traversal"),
        }
    }
}

fn is_border(t: Table, arena: &TableArena, i: i64) -> bool {
    (i == 0 || !t.get(arena, integer(i)).is_nil()) && t.get(arena, integer(i + 1)).is_nil()
}

#[test]
fn dense_sequence_has_its_length_and_order() {
    let mut arena = TableArena::new();
    let t = Table::new(&mut arena);
    t.set(&mut arena, integer(1), Value::String(10)).unwrap();
    t.set(&mut arena, integer(2), Value::String(11)).unwrap();
    t.set(&mut arena, integer(3), Value::String(12)).unwrap();
    assert_eq!(t.length(&arena), 3);
    let pairs = walk(t, &arena);
    assert_eq!(
        pairs,
        vec![
            (integer(1), Value::String(10)),
            (integer(2), Value::String(11)),
            (integer(3), Value::String(12))
        ]
    );
}

#[test]
fn gap_gives_one_of_the_borders() {
    let mut arena = TableArena::new();
    let t = Table::new(&mut arena);
    t.set(&mut arena, integer(1), Value::String(1)).unwrap();
    t.set(&mut arena, integer(3), Value::String(3)).unwrap();
    let n = t.length(&arena);
    assert!(n == 1 || n == 3);
    assert!(is_border(t, &arena, n));
}

#[test]
fn thousand_keys_then_a_hole() {
    let mut arena = TableArena::new();
    let t = Table::new(&mut arena);
    for i in 1..=1000i64 {
        t.set(&mut arena, integer(i), integer(i * 10)).unwrap();
    }
    assert_eq!(t.length(&arena), 1000);
    for i in 1..=1000i64 {
        assert_eq!(t.get(&arena, integer(i)), integer(i * 10));
    }
    assert_eq!(t.set(&mut arena, integer(500), Value::Nil), Ok(integer(5000)));
    assert_eq!(t.get(&arena, integer(500)), Value::Nil);
    let n = t.length(&arena);
    assert!(is_border(t, &arena, n));
    assert!(n == 499 || n == 1000);
    assert_eq!(walk(t, &arena).len(), 999);
}

#[test]
fn integral_floats_fold_to_integers() {
    let mut arena = TableArena::new();
    let t = Table::new(&mut arena);
    t.set(&mut arena, num(1.0), Value::String(7)).unwrap();
    assert_eq!(t.get(&arena, integer(1)), Value::String(7));
    t.set(&mut arena, num(0.5), Value::String(8)).unwrap();
    assert_eq!(t.get(&arena, num(0.5)), Value::String(8));
    assert_eq!(t.get(&arena, integer(0)), Value::Nil);
    let pairs = walk(t, &arena);
    assert_eq!(pairs.len(), 2);
    assert!(pairs.contains(&(num(0.5), Value::String(8))));
    assert!(pairs.contains(&(integer(1), Value::String(7))));
}

#[test]
fn mixed_keys_are_each_visited_once() {
    let run = || {
        let mut arena = TableArena::new();
        let t = Table::new(&mut arena);
        t.set(&mut arena, Value::String(42), integer(1)).unwrap();
        t.set(&mut arena, integer(1), integer(2)).unwrap();
        walk(t, &arena)
    };
    let first = run();
    assert_eq!(first.len(), 2);
    assert!(first.contains(&(Value::String(42), integer(1))));
    assert!(first.contains(&(integer(1), integer(2))));
    assert_eq!(first, run());
}

#[test]
fn nil_and_nan_keys_are_refused() {
    let mut arena = TableArena::new();
    let t = Table::new(&mut arena);
    assert_eq!(t.set(&mut arena, Value::Nil, integer(1)), Err(InvalidTableKey::IsNil));
    assert_eq!(t.set(&mut arena, num(f64::NAN), integer(1)), Err(InvalidTableKey::IsNaN));
    assert_eq!(t.length(&arena), 0);
    assert_eq!(t.next(&arena, Value::Nil), NextValue::Last);
    assert_eq!(t.get(&arena, Value::Nil), Value::Nil);
    assert_eq!(t.get(&arena, num(f64::NAN)), Value::Nil);
    assert_eq!(t.next(&arena, num(f64::NAN)), NextValue::NotFound);
}

#[test]
fn round_trip_of_many_kinds() {
    let mut arena = TableArena::new();
    let t = Table::new(&mut arena);
    let keys = vec![
        Value::Boolean(true),
        Value::Boolean(false),
        integer(-5),
        integer(0),
        integer(7),
        num(2.5),
        num(-1e300),
        Value::String(3),
        Value::Function(3),
        Value::Thread(3),
        Value::UserData(3),
        Value::Table(t),
    ];
    for (i, k) in keys.iter().enumerate() {
        assert_eq!(t.set(&mut arena, *k, integer(i as i64 + 100)), Ok(Value::Nil));
    }
    for (i, k) in keys.iter().enumerate() {
        assert_eq!(t.get(&arena, *k), integer(i as i64 + 100));
    }
    assert_eq!(t.set(&mut arena, integer(7), integer(1)), Ok(integer(104)));
    assert_eq!(t.get(&arena, integer(7)), integer(1));
    assert_eq!(walk(t, &arena).len(), keys.len());
}

#[test]
fn zero_floats_are_one_key() {
    let mut arena = TableArena::new();
    let t = Table::new(&mut arena);
    t.set(&mut arena, num(-0.0), integer(9)).unwrap();
    assert_eq!(t.get(&arena, num(0.0)), integer(9));
    assert_eq!(t.get(&arena, num(-0.0)), t.get(&arena, num(0.0)));
    assert_eq!(t.get(&arena, integer(0)), integer(9));
    t.set(&mut arena, integer(3), integer(4)).unwrap();
    assert_eq!(t.get(&arena, num(3.0)), integer(4));
}

#[test]
fn delete_from_map_part() {
    let mut arena = TableArena::new();
    let t = Table::new(&mut arena);
    for i in 0..50u64 {
        t.set(&mut arena, Value::String(i), integer(i as i64)).unwrap();
    }
    for i in 0..50u64 {
        if i % 2 == 0 {
            assert_eq!(t.set(&mut arena, Value::String(i), Value::Nil), Ok(integer(i as i64)));
        }
    }
    for i in 0..50u64 {
        let expect = if i % 2 == 0 { Value::Nil } else { integer(i as i64) };
        assert_eq!(t.get(&arena, Value::String(i)), expect);
    }
    assert_eq!(walk(t, &arena).len(), 25);
    assert_eq!(t.set(&mut arena, Value::String(0), Value::Nil), Ok(Value::Nil));
}

#[test]
fn value_updates_keep_the_order() {
    let mut arena = TableArena::new();
    let t = Table::new(&mut arena);
    for i in 0..20u64 {
        t.set(&mut arena, Value::String(i), integer(1)).unwrap();
        t.set(&mut arena, integer(i as i64 + 1), integer(1)).unwrap();
    }
    t.set(&mut arena, Value::String(100), integer(1)).unwrap();
    let before: Vec<Value> = walk(t, &arena).iter().map(|p| p.0).collect();
    for k in before.clone() {
        t.set(&mut arena, k, integer(2)).unwrap();
    }
    let after: Vec<Value> = walk(t, &arena).iter().map(|p| p.0).collect();
    assert_eq!(before, after);
}

#[test]
fn length_searches_into_the_map_part() {
    let mut arena = TableArena::new();
    let t = Table::new(&mut arena);
    for i in (1..=40i64).rev() {
        t.set(&mut arena, integer(i), integer(i)).unwrap();
    }
    assert_eq!(t.length(&arena), 40);
    t.set(&mut arena, integer(i64::MAX), integer(1)).unwrap();
    let n = t.length(&arena);
    assert!(is_border(t, &arena, n));
}

#[test]
fn largest_integer_key_is_a_border() {
    let mut entries = TableEntries::new();
    let mut i: i64 = 1;
    loop {
        entries.set(integer(i), integer(1)).unwrap();
        if i == i64::MAX {
            break;
        }
        i = if i <= i64::MAX / 2 { i * 2 } else { i64::MAX };
    }
    let n = entries.length();
    assert!(n == 0 || !entries.get(integer(n)).is_nil());
    assert!(n == i64::MAX || entries.get(integer(n + 1)).is_nil());
}

#[test]
fn next_of_an_absent_key_is_not_found() {
    let mut arena = TableArena::new();
    let t = Table::new(&mut arena);
    t.set(&mut arena, integer(1), integer(1)).unwrap();
    t.set(&mut arena, integer(2), integer(1)).unwrap();
    t.set(&mut arena, integer(2), Value::Nil).unwrap();
    assert_eq!(t.next(&arena, Value::Boolean(true)), NextValue::NotFound);
    assert_eq!(t.next(&arena, integer(2)), NextValue::NotFound);
    assert_eq!(t.next(&arena, integer(1)), NextValue::Last);
}

#[test]
fn metatable_is_replaced() {
    let mut arena = TableArena::new();
    let t = Table::new(&mut arena);
    let m = Table::new(&mut arena);
    assert_eq!(t.metatable(&arena), None);
    assert_eq!(t.set_metatable(&mut arena, Some(m)), None);
    assert_eq!(t.metatable(&arena), Some(m));
    assert_eq!(t.set_metatable(&mut arena, None), Some(m));
    assert_eq!(m.metatable(&arena), None);
    assert!(t != m);
}

#[test]
fn agrees_with_a_plain_hash_map() {
    let mut arena = TableArena::new();
    let t = Table::new(&mut arena);
    let mut model: HashMap<Value, Value> = HashMap::new();
    let mut seed: u64 = 12345;
    for step in 0..4000u64 {
        seed = seed.wrapping_mul(6364136223846793005).wrapping_add(1442695040888963407);
        let pick = (seed >> 33) % 100;
        let key = match pick % 4 {
            0 => Value::String(pick),
            1 => num((pick as f64) / 4.0),
            _ => integer((pick as i64) - 10),
        };
        let value = if (seed >> 20) % 5 == 0 { Value::Nil } else { integer(step as i64) };
        let canon = match key {
            Value::Number(bits) if f64::from_bits(bits).fract() == 0.0 => {
                integer(f64::from_bits(bits) as i64)
            }
            k => k,
        };
        let before = model.get(&canon).copied().unwrap_or(Value::Nil);
        assert_eq!(t.set(&mut arena, key, value), Ok(before));
        if value.is_nil() {
            model.remove(&canon);
        } else {
            model.insert(canon, value);
        }
        for probe in -12..=92i64 {
            let expect = model.get(&integer(probe)).copied().unwrap_or(Value::Nil);
            assert_eq!(t.get(&arena, integer(probe)), expect);
        }
        let n = t.length(&arena);
        assert!(is_border(t, &arena, n));
    }
    let mut seen: Vec<(Value, Value)> = walk(t, &arena);
    assert_eq!(seen.len(), model.len());
    seen.sort_by_key(|p| format!("{:?}", p));
    let mut expected: Vec<(Value, Value)> = model.into_iter().collect();
    expected.sort_by_key(|p| format!("{:?}", p));
    assert_eq!(seen, expected);
}

#[test]
fn default_storage_is_empty() {
    let e = TableEntries::default();
    assert_eq!(e.length(), 0);
    assert_eq!(e.next(Value::Nil), NextValue::Last);
    assert_eq!(e.get(integer(1)), Value::Nil);
    let s = lua_table::table::TableState::default();
    assert_eq!(s.metatable, None);
    assert_eq!(s.entries.length(), 0);
}

#[test]
fn overwrite_in_a_full_map_part_keeps_the_order() {
    let mut entries = TableEntries::new();
    for i in 1..=4u64 {
        entries.set(Value::String(i), integer(i as i64)).unwrap();
    }
    let keys = |e: &TableEntries| {
        let mut out = Vec::new();
        let mut key = Value::Nil;
        while let NextValue::Found { key: k, .. } = e.next(key) {
            out.push(k);
            key = k;
        }
        out
    };
    let before = keys(&entries);
    for i in 1..=4u64 {
        assert_eq!(entries.set(Value::String(i), integer(7)), Ok(integer(i as i64)));
        assert_eq!(keys(&entries), before);
    }
    assert_eq!(entries.get(Value::String(3)), integer(7));
}
