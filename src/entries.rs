use vstd::prelude::*;
use vstd::arithmetic::power2::{pow2, lemma2_to64, lemma2_to64_rest};
use crate::value::{Value, NextValue, follows, first_of, distinct_keys, same_keys};
use crate::key::{
    InvalidTableKey, canonical, is_canonical, array_index, canonical_key, to_array_index,
    highest_bit, bit_length, lemma_bit_length_pow2,
};
use crate::buckets::HashPart;

verus! {

/// The value a table holds under `key`: `Nil` for an absent or invalid key.
pub open spec fn value_at(m: Map<Value, Value>, key: Value) -> Value {
    match canonical(key) {
        Ok(c) => if m.contains_key(c) { m[c] } else { Value::Nil },
        Err(_) => Value::Nil,
    }
}

/// The mapping after `set(key, value)` with a valid key: `Nil` deletes.
pub open spec fn updated(m: Map<Value, Value>, key: Value, value: Value) -> Map<Value, Value> {
    match canonical(key) {
        Ok(c) => if value is Nil { m.remove(c) } else { m.insert(c, value) },
        Err(_) => m,
    }
}

/// Whether the integer key `i` holds a value.
pub open spec fn has_int(m: Map<Value, Value>, i: int) -> bool {
    i64::MIN <= i <= i64::MAX && m.contains_key(Value::Integer(i as i64))
}

/// `i` is a border: `(i == 0 or t[i] != Nil) and t[i + 1] == Nil`. There is no
/// key `i64::MAX + 1`, so `i64::MAX` is a border when it is present.
pub open spec fn is_border(m: Map<Value, Value>, i: int) -> bool {
    &&& 0 <= i <= i64::MAX
    &&& (i == 0 || has_int(m, i))
    &&& !has_int(m, i + 1)
}

spec fn map_value(m: Map<Value, Value>, k: Value) -> Value {
    if m.contains_key(k) { m[k] } else { Value::Nil }
}

/// What the pair of an array and a map part holds under the canonical key `k`.
spec fn lookup_in(arr: Seq<Value>, m: Map<Value, Value>, k: Value) -> Value {
    match array_index(k) {
        Some(i) => if i < arr.len() { arr[i as int] } else { map_value(m, k) },
        None => map_value(m, k),
    }
}

/// A valid key and its canonical form have the same array slot.
proof fn lemma_canonical_index(key: Value)
    requires
        canonical(key) is Ok,
    ensures
        is_canonical(canonical(key)->Ok_0),
        array_index(canonical(key)->Ok_0) == array_index(key),
{
}

/// A canonical key with an array slot `i` is the integer `i + 1`.
proof fn lemma_index_key(k: Value)
    requires
        is_canonical(k),
        array_index(k) is Some,
    ensures
        k == Value::Integer((array_index(k)->Some_0 + 1) as i64),
{
}

/// The slots of the filled cells of an array part.
pub open spec fn filled_slots(arr: Seq<Value>) -> Seq<nat>
    decreases arr.len(),
{
    if arr.len() == 0 {
        Seq::empty()
    } else {
        filled_slots(arr.drop_last()) + if arr.last() is Nil {
            Seq::empty()
        } else {
            seq![(arr.len() - 1) as nat]
        }
    }
}

/// The array slots of those keys of `ps` that have one.
pub open spec fn key_slots(ps: Seq<(Value, Value)>) -> Seq<nat>
    decreases ps.len(),
{
    if ps.len() == 0 {
        Seq::empty()
    } else {
        key_slots(ps.drop_last()) + match array_index(ps.last().0) {
            Some(i) => seq![i as nat],
            None => Seq::empty(),
        }
    }
}

/// How many of the slots `s` have their highest bit at `b`.
pub open spec fn in_bin(s: Seq<nat>, b: nat) -> nat
    decreases s.len(),
{
    if s.len() == 0 {
        0
    } else {
        in_bin(s.drop_last(), b) + if bit_length(s.last()) == b { 1nat } else { 0nat }
    }
}

pub open spec fn capped(n: nat) -> int {
    if n < usize::MAX { n as int } else { usize::MAX as int }
}

proof fn lemma_in_bin_push(s: Seq<nat>, x: nat)
    ensures
        forall|b: nat| #[trigger] in_bin(s.push(x), b) == in_bin(s, b) + if bit_length(x) == b { 1nat } else { 0nat },
        s.push(x).len() == s.len() + 1,
{
    assert(s.push(x).drop_last() =~= s);
}

/// How many of the slots `s` need at most `k` binary digits.
spec fn in_le(s: Seq<nat>, k: nat) -> nat
    decreases s.len(),
{
    if s.len() == 0 {
        0
    } else {
        in_le(s.drop_last(), k) + if bit_length(s.last()) <= k { 1nat } else { 0nat }
    }
}

proof fn lemma_in_le_split(s: Seq<nat>, k: nat)
    ensures
        k == 0 ==> in_le(s, 0) == in_bin(s, 0),
        k > 0 ==> in_le(s, k) == in_le(s, (k - 1) as nat) + in_bin(s, k),
        in_bin(s, k) <= s.len(),
    decreases s.len(),
{
    if s.len() > 0 {
        lemma_in_le_split(s.drop_last(), k);
    }
}

proof fn lemma_fitting_counts(s: Seq<nat>, k: nat)
    requires
        s.len() < usize::MAX,
        k < 65,
    ensures
        fitting(Seq::new(65, |b: int| capped(in_bin(s, b as nat)) as usize), k as int) == in_le(s, k),
    decreases k,
{
    let counts = Seq::new(65, |b: int| capped(in_bin(s, b as nat)) as usize);
    lemma_in_le_split(s, k);
    assert(counts[k as int] == in_bin(s, k));
    assert(fitting(counts, k as int) == fitting(counts, k - 1) + counts[k as int]);
    if k > 0 {
        lemma_fitting_counts(s, (k - 1) as nat);
    } else {
        assert(fitting(counts, -1) == 0);
    }
}

/// The slots `0..m`.
spec fn slots_below(m: nat) -> Seq<nat> {
    Seq::new(m, |i: int| i as nat)
}

proof fn lemma_in_le_range(m: nat, k: nat)
    ensures
        in_le(slots_below(m), k) == if m < pow2(k) { m } else { pow2(k) },
        m >= 1 ==> in_bin(slots_below(m), bit_length((m - 1) as nat)) >= 1,
    decreases m,
{
    if m > 0 {
        assert(slots_below(m).drop_last() =~= slots_below((m - 1) as nat));
        lemma_in_le_range((m - 1) as nat, k);
        lemma_bit_length_pow2((m - 1) as nat, k);
    }
}

proof fn lemma_filled_dense(arr: Seq<Value>)
    requires
        forall|i: int| 0 <= i < arr.len() ==> arr[i] != Value::Nil,
    ensures
        filled_slots(arr) == slots_below(arr.len()),
    decreases arr.len(),
{
    if arr.len() > 0 {
        lemma_filled_dense(arr.drop_last());
        assert(slots_below(arr.len()) =~= slots_below((arr.len() - 1) as nat).push(
            (arr.len() - 1) as nat,
        ));
    }
}

proof fn lemma_no_key_slots(ps: Seq<(Value, Value)>)
    requires
        forall|p: int| 0 <= p < ps.len() ==> array_index(#[trigger] ps[p].0) is None,
    ensures
        key_slots(ps) == Seq::<nat>::empty(),
    decreases ps.len(),
{
    if ps.len() > 0 {
        assert(array_index(ps[ps.len() - 1].0) is None);
        lemma_no_key_slots(ps.drop_last());
    }
}

/// With the candidates exactly the slots `0..c`, the best size is the least
/// power of two that holds them all.
proof fn lemma_range_best(c: nat)
    requires
        1 <= c,
        c <= 0x4000_0000_0000_0000,
        2 * c <= usize::MAX,
    ensures
        ({
            let cands = slots_below(c);
            let counts = Seq::new(65, |b: int| capped(in_bin(cands, b as nat)) as usize);
            best_size(counts, capped(cands.len()) as nat, 63) == pow2(bit_length((c - 1) as nat))
        }),
        c <= pow2(bit_length((c - 1) as nat)),
        pow2(bit_length((c - 1) as nat)) <= 2 * c - 1,
{
    let cands = slots_below(c);
    let counts = Seq::new(65, |b: int| capped(in_bin(cands, b as nat)) as usize);
    let total = capped(cands.len()) as nat;
    assert(total == c);
    let n = (c - 1) as nat;
    let k0 = bit_length(n);
    lemma2_to64();
    lemma2_to64_rest();
    lemma_bit_length_pow2(n, k0);
    lemma_bit_length_pow2(n, 62);
    if k0 > 0 {
        vstd::arithmetic::power2::lemma_pow2_unfold(k0);
    }
    lemma_in_le_range(c, k0);
    lemma_fitting_counts(cands, k0);
    assert(size_qualifies(counts, total, k0));
    if k0 < 62 {
        vstd::arithmetic::power2::lemma_pow2_unfold(k0 + 1);
        lemma_best_size_stays(counts, total, k0 + 1, 62);
        assert(!size_qualifies(counts, total, k0 + 1));
        assert(best_size(counts, total, k0 + 2) == best_size(counts, total, k0 + 1));
    }
    assert(best_size(counts, total, k0 + 1) == pow2(k0));
}

fn saturating_inc(x: usize) -> (r: usize)
    ensures
        r == (if x < usize::MAX { x + 1 } else { x as int }),
{
    if x < usize::MAX { x + 1 } else { x }
}

/// How many candidates have a slot below `2^k`: those counted in the bins
/// `0..=k`.
pub open spec fn fitting(counts: Seq<usize>, k: int) -> int
    decreases k + 1,
{
    if k < 0 || k >= counts.len() {
        0
    } else {
        fitting(counts, k - 1) + counts[k]
    }
}

/// An array of `2^k` slots would be more than half full, with bin `k` in
/// use, and a smaller array would not already hold every candidate.
pub open spec fn size_qualifies(counts: Seq<usize>, total: nat, k: nat) -> bool {
    &&& pow2(k) / 2 < total
    &&& pow2(k) <= usize::MAX
    &&& counts[k as int] > 0
    &&& fitting(counts, k as int) > pow2(k) / 2
}

/// The largest qualifying `2^k` with `k < i`, or 0.
pub open spec fn best_size(counts: Seq<usize>, total: nat, i: nat) -> nat
    decreases i,
{
    if i == 0 {
        0
    } else if size_qualifies(counts, total, (i - 1) as nat) {
        pow2((i - 1) as nat)
    } else {
        best_size(counts, total, (i - 1) as nat)
    }
}

proof fn lemma_best_size_stays(counts: Seq<usize>, total: nat, i: nat, j: nat)
    requires
        i <= j,
        pow2(i) / 2 >= total,
    ensures
        best_size(counts, total, j + 1) == best_size(counts, total, i + 1),
    decreases j - i,
{
    if j > i {
        lemma_best_size_stays(counts, total, i, (j - 1) as nat);
        vstd::arithmetic::power2::lemma_pow2_strictly_increases(i, j);
    }
}

/// The new size of the array part: the largest power of two `2^k`, `k <= 62`,
/// such that more than half of an array of that many slots would be in use,
/// given `counts[b]` candidates whose slot has its highest bit at `b` and
/// `total` candidates in all; 0 when there is none.
fn optimal_array_size(counts: &Vec<usize>, total: usize) -> (r: usize)
    requires
        counts@.len() == 65,
    ensures
        r == best_size(counts@, total as nat, 63),
        r <= 0x4000_0000_0000_0000,
{
    proof {
        lemma2_to64();
        lemma2_to64_rest();
    }
    let mut optimal: usize = 0;
    let mut running: usize = 0;
    let mut size: u64 = 1;
    let mut i: usize = 0;
    while i < 63
        invariant
            i <= 63,
            counts@.len() == 65,
            i < 63 ==> size == pow2(i as nat),
            optimal == best_size(counts@, total as nat, i as nat),
            optimal <= 0x4000_0000_0000_0000,
            running == (if fitting(counts@, i - 1) < usize::MAX {
                fitting(counts@, i - 1)
            } else {
                usize::MAX as int
            }),
            fitting(counts@, i - 1) >= 0,
        decreases 63 - i,
    {
        if size / 2 >= total as u64 {
            proof {
                lemma_best_size_stays(counts@, total as nat, i as nat, 62);
            }
            return optimal;
        }
        if counts[i] > 0 {
            running = if running <= usize::MAX - counts[i] { running + counts[i] } else { usize::MAX };
            if running as u64 > size / 2 && size <= usize::MAX as u64 {
                optimal = size as usize;
            }
        }
        proof {
            lemma2_to64();
            lemma2_to64_rest();
            if i < 61 {
                vstd::arithmetic::power2::lemma_pow2_strictly_increases(i as nat, 61);
            }
            if i < 62 {
                vstd::arithmetic::power2::lemma_pow2_strictly_increases(i as nat, 62);
                vstd::arithmetic::power2::lemma_pow2_unfold((i + 1) as nat);
            }
        }
        if size <= 0x2000_0000_0000_0000 {
            size = size * 2;
        }
        i = i + 1;
    }
    optimal
}

/// The array part's pairs in slot order, holes left out.
pub open spec fn array_pairs(arr: Seq<Value>) -> Seq<(Value, Value)>
    decreases arr.len(),
{
    if arr.len() == 0 {
        Seq::empty()
    } else {
        array_pairs(arr.drop_last()) + if arr.last() is Nil {
            Seq::empty()
        } else {
            seq![(Value::Integer(arr.len() as i64), arr.last())]
        }
    }
}

proof fn lemma_array_pairs_same_keys(a1: Seq<Value>, a2: Seq<Value>)
    requires
        a1.len() == a2.len(),
        forall|j: int| 0 <= j < a1.len() ==> (#[trigger] a1[j] is Nil) == (a2[j] is Nil),
    ensures
        same_keys(array_pairs(a1), array_pairs(a2)),
    decreases a1.len(),
{
    if a1.len() > 0 {
        let n = a1.len() - 1;
        lemma_array_pairs_same_keys(a1.drop_last(), a2.drop_last());
        assert((a1[n] is Nil) == (a2[n] is Nil));
        let f1 = array_pairs(a1);
        let f2 = array_pairs(a2);
        let d = array_pairs(a1.drop_last()).len();
        assert forall|p: int| 0 <= p < f1.len() implies #[trigger] f1[p].0 == f2[p].0 by {
            if p >= d {
                assert(f1[p].0 == Value::Integer(a1.len() as i64));
            }
        }
    }
}

/// How many pairs the first `j` slots contribute.
spec fn count_before(arr: Seq<Value>, j: int) -> int {
    array_pairs(arr.take(j)).len() as int
}

proof fn lemma_array_pairs_step(arr: Seq<Value>, j: int)
    requires
        0 <= j < arr.len(),
    ensures
        array_pairs(arr.take(j + 1)) == array_pairs(arr.take(j)) + if arr[j] is Nil {
            Seq::<(Value, Value)>::empty()
        } else {
            seq![(Value::Integer((j + 1) as i64), arr[j])]
        },
{
    assert(arr.take(j + 1).drop_last() =~= arr.take(j));
}

proof fn lemma_array_pairs_prefix(arr: Seq<Value>, j: int)
    requires
        0 <= j <= arr.len(),
    ensures
        count_before(arr, j) <= array_pairs(arr).len(),
        array_pairs(arr).take(count_before(arr, j)) == array_pairs(arr.take(j)),
    decreases arr.len(),
{
    if j == arr.len() {
        assert(arr.take(j) =~= arr);
        assert(array_pairs(arr).take(array_pairs(arr).len() as int) =~= array_pairs(arr));
    } else {
        let d = arr.drop_last();
        lemma_array_pairs_prefix(d, j);
        assert(d.take(j) =~= arr.take(j));
        assert(array_pairs(arr).take(count_before(arr, j)) =~= array_pairs(d).take(
            count_before(arr, j),
        ));
    }
}

/// The pair of a filled slot `j` stands at `count_before(arr, j)`.
proof fn lemma_array_pairs_index(arr: Seq<Value>, j: int)
    requires
        0 <= j < arr.len(),
        arr[j] != Value::Nil,
    ensures
        count_before(arr, j) < array_pairs(arr).len(),
        array_pairs(arr)[count_before(arr, j)] == (Value::Integer((j + 1) as i64), arr[j]),
        count_before(arr, j + 1) == count_before(arr, j) + 1,
{
    lemma_array_pairs_step(arr, j);
    lemma_array_pairs_prefix(arr, j + 1);
    let f = array_pairs(arr.take(j + 1));
    assert(array_pairs(arr).take(f.len() as int)[count_before(arr, j)] == f[count_before(arr, j)]);
}

proof fn lemma_array_pairs_end(arr: Seq<Value>)
    ensures
        count_before(arr, arr.len() as int) == array_pairs(arr).len(),
{
    assert(arr.take(arr.len() as int) =~= arr);
}

/// Each pair comes from a filled slot, at that slot's count.
proof fn lemma_array_pairs_origin(arr: Seq<Value>, p: int)
    requires
        0 <= p < array_pairs(arr).len(),
    ensures
        exists|j: int|
            0 <= j < arr.len() && arr[j] != Value::Nil && p == count_before(arr, j)
                && array_pairs(arr)[p] == (Value::Integer((j + 1) as i64), arr[j]),
    decreases arr.len(),
{
    let d = arr.drop_last();
    let n = arr.len() - 1;
    assert(arr.take(n) =~= d);
    if p < array_pairs(d).len() {
        lemma_array_pairs_origin(d, p);
        let j = choose|j: int|
            0 <= j < d.len() && d[j] != Value::Nil && p == count_before(d, j)
                && array_pairs(d)[p] == (Value::Integer((j + 1) as i64), d[j]);
        assert(d.take(j) =~= arr.take(j));
    } else {
        assert(array_pairs(arr)[p] == (Value::Integer((n + 1) as i64), arr[n]));
    }
}

proof fn lemma_count_over_holes(arr: Seq<Value>, a: int, b: int)
    requires
        0 <= a <= b <= arr.len(),
        forall|l: int| a <= l < b ==> arr[l] == Value::Nil,
    ensures
        count_before(arr, b) == count_before(arr, a),
    decreases b - a,
{
    if a < b {
        lemma_count_over_holes(arr, a, b - 1);
        lemma_array_pairs_step(arr, b - 1);
    }
}

/// The integer key of slot `j` has that slot.
proof fn lemma_slot_key(j: int, len: int)
    requires
        0 <= j < len,
        len <= usize::MAX,
        len < i64::MAX,
    ensures
        array_index(Value::Integer((j + 1) as i64)) == Some(j as usize),
        is_canonical(Value::Integer((j + 1) as i64)),
{
}

/// In a traversal without repeated keys, what follows the key at `p` is the
/// pair at `p + 1`, or `Last` at the end.
pub proof fn lemma_follows_at(o: Seq<(Value, Value)>, c: Value, p: int)
    requires
        distinct_keys(o),
        0 <= p < o.len(),
        o[p].0 == c,
    ensures
        follows(o, c) == (if p + 1 < o.len() {
            NextValue::Found { key: o[p + 1].0, value: o[p + 1].1 }
        } else {
            NextValue::Last
        }),
{
    let q = choose|q: int| 0 <= q < o.len() && o[q].0 == c;
    assert(o[q].0 == o[p].0);
}

proof fn lemma_follows_suffix(a: Seq<(Value, Value)>, b: Seq<(Value, Value)>, c: Value)
    requires
        distinct_keys(a + b),
        forall|p: int| 0 <= p < a.len() ==> a[p].0 != c,
    ensures
        follows(a + b, c) == follows(b, c),
{
    let o = a + b;
    if exists|q: int| 0 <= q < b.len() && b[q].0 == c {
        let q = choose|q: int| 0 <= q < b.len() && b[q].0 == c;
        assert(o[a.len() + q].0 == c);
        lemma_follows_at(o, c, a.len() + q);
        assert(distinct_keys(b)) by {
            assert forall|p: int, r: int|
                0 <= p < b.len() && 0 <= r < b.len() && #[trigger] b[p].0 == #[trigger] b[r].0
                    implies p == r by {
                assert(o[a.len() + p] == b[p]);
                assert(o[a.len() + r] == b[r]);
            }
        }
        lemma_follows_at(b, c, q);
        if q + 1 < b.len() {
            assert(o[a.len() + q + 1] == b[q + 1]);
        }
    } else {
        assert forall|p: int| 0 <= p < o.len() implies o[p].0 != c by {
            if p >= a.len() {
                assert(o[p] == b[p - a.len()]);
            }
        }
    }
}

/// The storage of a table: a dense array part for the keys `1..=n` and a map
/// part for every other key.
pub struct TableEntries {
    array: Vec<Value>,
    map: HashPart,
}

impl Default for TableEntries {
    fn default() -> (r: TableEntries)
        ensures
            r.wf(),
            r@ == Map::<Value, Value>::empty(),
            r.map_len() == 0,
            r.map_room() == 0,
            r.array_view() == Seq::<Value>::empty(),
            r.order() == Seq::<(Value, Value)>::empty(),
    {
        TableEntries::new()
    }
}

impl TableEntries {
    /// The key-to-value mapping the table holds; `Nil` is never a value of it.
    pub closed spec fn view(&self) -> Map<Value, Value> {
        Map::new(
            |k: Value| is_canonical(k) && lookup_in(self.array@, self.map@, k) != Value::Nil,
            |k: Value| lookup_in(self.array@, self.map@, k),
        )
    }

    pub closed spec fn wf(&self) -> bool {
        &&& self.map.wf()
        &&& self.array@.len() < i64::MAX
        &&& forall|k: Value| #[trigger] self.map@.contains_key(k) ==> match array_index(k) {
            Some(i) => i >= self.array@.len(),
            None => true,
        }
    }

    /// The cells of the array part; cell `i` holds the value of key `i + 1`.
    pub closed spec fn array_view(&self) -> Seq<Value> {
        self.array@
    }

    /// The pairs of the map part, in its bucket order.
    pub closed spec fn map_order(&self) -> Seq<(Value, Value)> {
        self.map.order()
    }

    /// How many pairs the map part takes before it must grow.
    pub closed spec fn map_room(&self) -> nat {
        self.map.room()
    }

    /// The traversal order: the array part by ascending slot, holes left
    /// out, then the map part bucket by bucket.
    pub open spec fn order(&self) -> Seq<(Value, Value)> {
        array_pairs(self.array_view()) + self.map_order()
    }

    proof fn lemma_order_members(&self)
        requires
            self.wf(),
        ensures
            forall|p: int|
                0 <= p < self.order().len() ==> #[trigger] self@.contains_key(self.order()[p].0)
                    && self@[self.order()[p].0] == self.order()[p].1,
    {
        let arr = self.array@;
        let ap = array_pairs(arr);
        let o = self.order();
        self.map.lemma_order();
        self.map.lemma_contents();
        let mo = self.map.order();
        assert(self.array.len() == arr.len());
        assert forall|p: int| 0 <= p < o.len() implies #[trigger] self@.contains_key(o[p].0)
            && self@[o[p].0] == o[p].1 by {
            if p < ap.len() {
                lemma_array_pairs_origin(arr, p);
                let j = choose|j: int|
                    0 <= j < arr.len() && arr[j] != Value::Nil && p == count_before(arr, j)
                        && ap[p] == (Value::Integer((j + 1) as i64), arr[j]);
                lemma_slot_key(j, arr.len() as int);
            } else {
                assert(o[p] == mo[p - ap.len()]);
                assert(self.map@.contains_key(mo[p - ap.len()].0));
            }
        }
    }

    proof fn lemma_order_covers(&self)
        requires
            self.wf(),
        ensures
            forall|k: Value|
                #[trigger] self@.contains_key(k) ==> exists|p: int|
                    0 <= p < self.order().len() && self.order()[p].0 == k,
    {
        let arr = self.array@;
        let ap = array_pairs(arr);
        let o = self.order();
        self.map.lemma_order();
        self.map.lemma_contents();
        let mo = self.map.order();
        assert(self.array.len() == arr.len());
        assert forall|k: Value| #[trigger] self@.contains_key(k) implies exists|p: int|
            0 <= p < o.len() && o[p].0 == k by {
            match array_index(k) {
                Some(i) => {
                    if i < arr.len() {
                        lemma_index_key(k);
                        lemma_array_pairs_index(arr, i as int);
                        assert(o[count_before(arr, i as int)].0 == k);
                    } else {
                        let q = choose|q: int| 0 <= q < mo.len() && mo[q].0 == k;
                        assert(o[ap.len() + q].0 == k);
                    }
                },
                None => {
                    let q = choose|q: int| 0 <= q < mo.len() && mo[q].0 == k;
                    assert(o[ap.len() + q].0 == k);
                },
            }
        }
    }

    proof fn lemma_order_distinct(&self)
        requires
            self.wf(),
        ensures
            distinct_keys(self.order()),
    {
        let arr = self.array@;
        let ap = array_pairs(arr);
        let o = self.order();
        self.map.lemma_order();
        self.map.lemma_contents();
        let mo = self.map.order();
        assert(self.array.len() == arr.len());
        assert forall|p: int, q: int|
            0 <= p < o.len() && 0 <= q < o.len() && #[trigger] o[p].0 == #[trigger] o[q].0 implies p
                == q by {
            if p < ap.len() {
                lemma_array_pairs_origin(arr, p);
            }
            if q < ap.len() {
                lemma_array_pairs_origin(arr, q);
            }
            if p < ap.len() && q < ap.len() {
                let j = choose|j: int|
                    0 <= j < arr.len() && arr[j] != Value::Nil && p == count_before(arr, j)
                        && ap[p] == (Value::Integer((j + 1) as i64), arr[j]);
                let i = choose|j: int|
                    0 <= j < arr.len() && arr[j] != Value::Nil && q == count_before(arr, j)
                        && ap[q] == (Value::Integer((j + 1) as i64), arr[j]);
                assert(i == j);
            } else if p < ap.len() {
                let j = choose|j: int|
                    0 <= j < arr.len() && arr[j] != Value::Nil && p == count_before(arr, j)
                        && ap[p] == (Value::Integer((j + 1) as i64), arr[j]);
                assert(o[q] == mo[q - ap.len()]);
                assert(self.map@.contains_key(mo[q - ap.len()].0));
                lemma_slot_key(j, arr.len() as int);
            } else if q < ap.len() {
                let j = choose|j: int|
                    0 <= j < arr.len() && arr[j] != Value::Nil && q == count_before(arr, j)
                        && ap[q] == (Value::Integer((j + 1) as i64), arr[j]);
                assert(o[p] == mo[p - ap.len()]);
                assert(self.map@.contains_key(mo[p - ap.len()].0));
                lemma_slot_key(j, arr.len() as int);
            } else {
                assert(o[p] == mo[p - ap.len()]);
                assert(o[q] == mo[q - ap.len()]);
            }
        }
    }

    /// The traversal holds each pair of the table once, and nothing else.
    pub proof fn lemma_order(&self)
        requires
            self.wf(),
        ensures
            distinct_keys(self.order()),
            forall|p: int|
                0 <= p < self.order().len() ==> #[trigger] self@.contains_key(self.order()[p].0)
                    && self@[self.order()[p].0] == self.order()[p].1,
            forall|k: Value|
                #[trigger] self@.contains_key(k) ==> exists|p: int|
                    0 <= p < self.order().len() && self.order()[p].0 == k,
            forall|k: Value| #[trigger] self@.contains_key(k) ==> is_canonical(k) && self@[k]
                != Value::Nil,
    {
        self.lemma_order_members();
        self.lemma_order_covers();
        self.lemma_order_distinct();
    }

    /// The mapping's keys are canonical and its values never `Nil`; the array
    /// part's cells are the values of the keys `1..=array_len`, and every
    /// other pair sits in the map part.
    pub proof fn lemma_layout(&self)
        requires
            self.wf(),
        ensures
            forall|k: Value| #[trigger] self@.contains_key(k) ==> is_canonical(k) && self@[k]
                != Value::Nil,
            self.array_len() < i64::MAX,
            forall|i: int|
                0 <= i < self.array_len() ==> #[trigger] self.array_view()[i] == value_at(
                    self@,
                    Value::Integer((i + 1) as i64),
                ),
            forall|p: int|
                0 <= p < self.map_order().len() ==> #[trigger] self@.contains_key(
                    self.map_order()[p].0,
                ) && self@[self.map_order()[p].0] == self.map_order()[p].1 && !self.in_array(
                    self.map_order()[p].0,
                ),
            forall|k: Value|
                #[trigger] self@.contains_key(k) && !self.in_array(k) ==> exists|p: int|
                    0 <= p < self.map_order().len() && self.map_order()[p].0 == k,
            distinct_keys(self.order()),
    {
        self.map.lemma_contents();
        self.map.lemma_order();
        self.lemma_order();
        assert(self.array.len() == self.array@.len());
        assert forall|i: int| 0 <= i < self.array_len() implies #[trigger] self.array_view()[i]
            == value_at(self@, Value::Integer((i + 1) as i64)) by {
            lemma_slot_key(i, self.array@.len() as int);
        }
        assert forall|k: Value| #[trigger] self@.contains_key(k) && !self.in_array(k) implies exists|p: int|
            0 <= p < self.map_order().len() && self.map_order()[p].0 == k by {
            assert(self.map@.contains_key(k));
        }
    }

    /// Rebalancing for the key `n + 1`, where the array part holds the keys
    /// `1..=n` with no hole and every key with a slot is in it, gives the
    /// least power of two above `n`.
    pub proof fn lemma_dense_rebalance(&self)
        requires
            self.wf(),
            forall|i: int| 0 <= i < self.array_len() ==> self.array_view()[i] != Value::Nil,
            forall|k: Value| #[trigger] self@.contains_key(k) && array_index(k) is Some ==> self.in_array(k),
            self.array_len() < 0x4000_0000_0000_0000,
            2 * self.array_len() + 2 <= usize::MAX,
        ensures
            self.rebalanced_len(Some(self.array_len() as usize)) == pow2(bit_length(self.array_len())),
            self.array_len() < pow2(bit_length(self.array_len())),
            pow2(bit_length(self.array_len())) <= 2 * self.array_len() + 1,
    {
        let n = self.array_len();
        self.lemma_layout();
        lemma_filled_dense(self.array_view());
        assert forall|p: int| 0 <= p < self.map_order().len() implies array_index(
            #[trigger] self.map_order()[p].0,
        ) is None by {
            assert(self@.contains_key(self.map_order()[p].0));
        }
        lemma_no_key_slots(self.map_order());
        let cands = self.candidates(Some(n as usize));
        assert(cands =~= slots_below(n + 1));
        lemma_range_best(n + 1);
    }

    /// Rebalancing for a key without a slot, where the array part holds the
    /// keys `1..=n` with no hole, `n` a power of two, and every key with a
    /// slot is in it, leaves the array size as it is.
    pub proof fn lemma_dense_rebalance_stays(&self, m: nat)
        requires
            self.wf(),
            forall|i: int| 0 <= i < self.array_len() ==> self.array_view()[i] != Value::Nil,
            forall|k: Value| #[trigger] self@.contains_key(k) && array_index(k) is Some ==> self.in_array(k),
            self.array_len() == pow2(m),
            m <= 62,
            2 * self.array_len() + 2 <= usize::MAX,
        ensures
            self.rebalanced_len(None) == self.array_len(),
    {
        let n = self.array_len();
        self.lemma_layout();
        lemma_filled_dense(self.array_view());
        assert forall|p: int| 0 <= p < self.map_order().len() implies array_index(
            #[trigger] self.map_order()[p].0,
        ) is None by {
            assert(self@.contains_key(self.map_order()[p].0));
        }
        lemma_no_key_slots(self.map_order());
        let cands = self.candidates(None);
        assert(cands =~= slots_below(n));
        vstd::arithmetic::power2::lemma_pow2_pos(m);
        lemma2_to64_rest();
        if m < 62 {
            vstd::arithmetic::power2::lemma_pow2_strictly_increases(m, 62);
        }
        lemma_range_best(n);
        lemma_bit_length_pow2((n - 1) as nat, m);
        if m > 0 {
            lemma_bit_length_pow2((n - 1) as nat, (m - 1) as nat);
            vstd::arithmetic::power2::lemma_pow2_strictly_increases((m - 1) as nat, m);
            vstd::arithmetic::power2::lemma_pow2_unfold(m);
        }
        assert(bit_length((n - 1) as nat) == m);
    }

    /// The walk through the array part: from `Nil` or from the filled slot
    /// `i` (key `i + 1`), the next pair is that of the first filled slot
    /// after it, or, when there is none, the first pair of the map part.
    pub proof fn lemma_array_walk(&self, start: int)
        requires
            self.wf(),
            0 <= start <= self.array_len(),
            start > 0 ==> self.array_view()[start - 1] != Value::Nil,
        ensures
            forall|j: int|
                start <= j < self.array_len() && self.array_view()[j] != Value::Nil && (forall|l: int|
                    start <= l < j ==> self.array_view()[l] == Value::Nil) ==> {
                    let pair = NextValue::Found {
                        key: Value::Integer((j + 1) as i64),
                        value: self.array_view()[j],
                    };
                    &&& start == 0 ==> first_of(self.order()) == pair
                    &&& start > 0 ==> follows(self.order(), Value::Integer(start as i64)) == pair
                },
            (forall|l: int| start <= l < self.array_len() ==> self.array_view()[l] == Value::Nil) ==> {
                &&& start == 0 ==> first_of(self.order()) == first_of(self.map_order())
                &&& start > 0 ==> follows(self.order(), Value::Integer(start as i64)) == first_of(
                    self.map_order(),
                )
            },
    {
        let arr = self.array@;
        let ap = array_pairs(arr);
        let o = self.order();
        self.lemma_order();
        assert(arr.take(0) =~= Seq::<Value>::empty());
        if start > 0 {
            lemma_array_pairs_index(arr, start - 1);
            lemma_follows_at(o, Value::Integer(start as i64), count_before(arr, start - 1));
        }
        assert forall|j: int|
            start <= j < self.array_len() && self.array_view()[j] != Value::Nil && (forall|l: int|
                start <= l < j ==> self.array_view()[l] == Value::Nil) implies {
            let pair = NextValue::Found {
                key: Value::Integer((j + 1) as i64),
                value: self.array_view()[j],
            };
            &&& start == 0 ==> first_of(self.order()) == pair
            &&& start > 0 ==> follows(self.order(), Value::Integer(start as i64)) == pair
        } by {
            lemma_count_over_holes(arr, start, j);
            lemma_array_pairs_index(arr, j);
            assert(o[count_before(arr, j)] == ap[count_before(arr, j)]);
        }
        if forall|l: int| start <= l < self.array_len() ==> self.array_view()[l] == Value::Nil {
            lemma_count_over_holes(arr, start, arr.len() as int);
            lemma_array_pairs_end(arr);
            if self.map_order().len() > 0 {
                assert(o[ap.len() as int] == self.map_order()[0]);
            }
        }
    }

    /// Whether the map part can take one more pair without growing.
    pub open spec fn has_room(&self) -> bool {
        self.map_len() < self.map_room()
    }

    /// Whether the canonical key `c` lives in the array part.
    pub open spec fn in_array(&self, c: Value) -> bool {
        array_index(c) is Some && array_index(c)->Some_0 < self.array_len()
    }

    /// How many slots the array part has.
    pub open spec fn array_len(&self) -> nat {
        self.array_view().len()
    }

    /// Whether `set(key, value)` must rebalance: a new pair whose key has no
    /// array slot finds the map part full.
    pub open spec fn rebalances(&self, key: Value, value: Value) -> bool {
        let c = canonical(key)->Ok_0;
        &&& canonical(key) is Ok
        &&& value != Value::Nil
        &&& !self.in_array(c)
        &&& !self@.contains_key(c)
        &&& !self.has_room()
    }

    /// The array size after a rebalance that counts `extra` among the
    /// candidates: the best power of two when it is larger, else unchanged.
    pub open spec fn rebalanced_len(&self, extra: Option<usize>) -> nat {
        let cands = self.candidates(extra);
        let counts = Seq::new(65, |b: int| capped(in_bin(cands, b as nat)) as usize);
        let best = best_size(counts, capped(cands.len()) as nat, 63);
        if best > self.array_len() { best } else { self.array_len() }
    }

    /// How many pairs the map part holds.
    pub closed spec fn map_len(&self) -> nat {
        self.map@.len()
    }

    pub fn new() -> (r: TableEntries)
        ensures
            r.wf(),
            r@ == Map::<Value, Value>::empty(),
            r.map_len() == 0,
            r.map_room() == 0,
            r.array_view() == Seq::<Value>::empty(),
            r.order() == Seq::<(Value, Value)>::empty(),
    {
        let r = TableEntries { array: Vec::new(), map: HashPart::new() };
        assert(r@ =~= Map::<Value, Value>::empty());
        proof {
            r.lemma_order();
            assert(r.order() =~= Seq::<(Value, Value)>::empty()) by {
                if r.order().len() > 0 {
                    assert(r@.contains_key(r.order()[0].0));
                }
            }
        }
        r
    }

    /// The slots of the keys that could live in the array part: the filled
    /// array cells, the map part's keys that have a slot, and `extra`.
    pub open spec fn candidates(&self, extra: Option<usize>) -> Seq<nat> {
        filled_slots(self.array_view()) + key_slots(self.map_order()) + match extra {
            Some(i) => seq![i as nat],
            None => Seq::empty(),
        }
    }

    /// Counts the candidate slots by their highest bit, and in all (both
    /// capped at `usize::MAX`).
    fn count_array_candidates(&self, extra: Option<usize>) -> (r: (Vec<usize>, usize))
        requires
            self.wf(),
        ensures
            r.0@.len() == 65,
            forall|b: int| 0 <= b < 65 ==> #[trigger] r.0@[b] == capped(in_bin(self.candidates(extra), b as nat)),
            r.1 == capped(self.candidates(extra).len()),
    {
        let mut counts: Vec<usize> = Vec::new();
        let mut b: usize = 0;
        while b < 65
            invariant
                b <= 65,
                counts@.len() == b,
                forall|c: int| 0 <= c < b ==> #[trigger] counts@[c] == 0,
            decreases 65 - b,
        {
            counts.push(0);
            b = b + 1;
        }
        let ghost seen: Seq<nat> = Seq::empty();
        assert(self.array@.take(0) =~= Seq::<Value>::empty());
        assert forall|c: int| 0 <= c < 65 implies #[trigger] counts@[c] == capped(in_bin(seen, c as nat)) by {}
        let mut total: usize = 0;
        let mut i: usize = 0;
        while i < self.array.len()
            invariant
                self.wf(),
                i <= self.array@.len(),
                counts@.len() == 65,
                seen == filled_slots(self.array@.take(i as int)),
                forall|c: int| 0 <= c < 65 ==> #[trigger] counts@[c] == capped(in_bin(seen, c as nat)),
                total == capped(seen.len()),
            decreases self.array@.len() - i,
        {
            proof {
                assert(self.array@.take(i + 1).drop_last() =~= self.array@.take(i as int));
            }
            if !self.array[i].is_nil() {
                let hb = highest_bit(i);
                proof {
                    lemma_in_bin_push(seen, i as nat);
                    seen = seen.push(i as nat);
                }
                counts.set(hb, saturating_inc(counts[hb]));
                total = saturating_inc(total);
            }
            i = i + 1;
        }
        assert(self.array@.take(i as int) =~= self.array@);
        let pairs = self.map.pairs();
        let mut t: usize = 0;
        assert(pairs@.take(0) =~= Seq::<(Value, Value)>::empty());
        assert(seen + key_slots(pairs@.take(0)) =~= seen);
        while t < pairs.len()
            invariant
                self.wf(),
                pairs@ == self.map.order(),
                t <= pairs@.len(),
                counts@.len() == 65,
                seen == filled_slots(self.array@) + key_slots(pairs@.take(t as int)),
                forall|c: int| 0 <= c < 65 ==> #[trigger] counts@[c] == capped(in_bin(seen, c as nat)),
                total == capped(seen.len()),
            decreases pairs@.len() - t,
        {
            proof {
                assert(pairs@.take(t + 1).drop_last() =~= pairs@.take(t as int));
            }
            if let Some(i) = to_array_index(pairs[t].0) {
                let hb = highest_bit(i);
                proof {
                    lemma_in_bin_push(seen, i as nat);
                    assert(filled_slots(self.array@) + key_slots(pairs@.take(t + 1)) =~= seen.push(i as nat));
                    seen = seen.push(i as nat);
                }
                counts.set(hb, saturating_inc(counts[hb]));
                total = saturating_inc(total);
            } else {
                assert(filled_slots(self.array@) + key_slots(pairs@.take(t + 1)) =~= seen);
            }
            t = t + 1;
        }
        assert(pairs@.take(t as int) =~= pairs@);
        if let Some(i) = extra {
            let hb = highest_bit(i);
            proof {
                lemma_in_bin_push(seen, i as nat);
                seen = seen.push(i as nat);
            }
            counts.set(hb, saturating_inc(counts[hb]));
            total = saturating_inc(total);
        }
        assert(seen =~= self.candidates(extra));
        (counts, total)
    }

    /// Lengthens the array part to `new_len` slots and moves into it every
    /// pair of the map part whose key now has a slot there.
    fn grow_array(&mut self, new_len: usize)
        requires
            old(self).wf(),
            old(self).array@.len() < new_len < i64::MAX,
        ensures
            final(self).wf(),
            final(self)@ == old(self)@,
            final(self).array@.len() == new_len,
            final(self).map_len() <= old(self).map_len(),
            final(self).map.room() == old(self).map.room(),
    {
        let ghost arr0 = self.array@;
        let ghost map0 = self.map@;
        let old_len = self.array.len();
        self.array.resize(new_len, Value::Nil);
        let pairs = self.map.pairs();
        proof {
            self.map.lemma_order();
            self.map.lemma_contents();
        }
        let mut t: usize = 0;
        while t < pairs.len()
            invariant
                self.map.wf(),
                self.map.room() == old(self).map.room(),
                pairs@ == old(self).map.order(),
                distinct_keys(pairs@),
                forall|p: int| 0 <= p < pairs@.len() ==> #[trigger] map0.contains_key(pairs@[p].0)
                    && map0[pairs@[p].0] == pairs@[p].1,
                forall|k: Value| #[trigger] map0.contains_key(k) ==> is_canonical(k) && map0[k]
                    != Value::Nil,
                forall|k: Value| #[trigger] map0.contains_key(k) ==> exists|p: int|
                    0 <= p < pairs@.len() && pairs@[p].0 == k,
                old(self).wf(),
                arr0 == old(self).array@,
                map0 == old(self).map@,
                old_len == arr0.len(),
                self.array@.len() == new_len,
                new_len < i64::MAX,
                t <= pairs@.len(),
                forall|i: int| 0 <= i < old_len ==> self.array@[i] == arr0[i],
                forall|i: int|
                    old_len <= i < new_len ==> #[trigger] self.array@[i] == (if self.map@.contains_key(
                        Value::Integer((i + 1) as i64),
                    ) || !map0.contains_key(Value::Integer((i + 1) as i64)) {
                        Value::Nil
                    } else {
                        map0[Value::Integer((i + 1) as i64)]
                    }),
                forall|k: Value| #[trigger] self.map@.contains_key(k) ==> {
                    &&& map0.contains_key(k)
                    &&& self.map@[k] == map0[k]
                    &&& (match array_index(k) {
                        Some(i) => i < new_len ==> exists|p: int| t <= p < pairs@.len() && pairs@[p].0 == k,
                        None => true,
                    })
                },
                forall|k: Value| #[trigger] map0.contains_key(k) && !self.map@.contains_key(k) ==> {
                    &&& array_index(k) is Some
                    &&& array_index(k)->Some_0 < new_len
                },
            decreases pairs@.len() - t,
        {
            let (k, v) = pairs[t];
            let ghost before = self.map@;
            assert(map0.contains_key(k));
            assert(is_canonical(k));
            if let Some(i) = to_array_index(k) {
                if i < self.array.len() {
                    proof {
                        lemma_index_key(k);
                    }
                    assert(k == Value::Integer((i + 1) as i64));
                    self.array.set(i, v);
                    self.map.remove(k);
                    assert forall|j: int| old_len <= j < new_len implies #[trigger] self.array@[j] == (
                    if self.map@.contains_key(Value::Integer((j + 1) as i64)) || !map0.contains_key(
                        Value::Integer((j + 1) as i64),
                    ) {
                        Value::Nil
                    } else {
                        map0[Value::Integer((j + 1) as i64)]
                    }) by {
                        if j != i {
                            assert((j + 1) as i64 != (i + 1) as i64);
                            assert(Value::Integer((j + 1) as i64) != k);
                        }
                    }
                }
            }
            assert forall|k2: Value| #[trigger] self.map@.contains_key(k2) implies (match array_index(k2) {
                Some(i) => i < new_len ==> exists|p: int| t + 1 <= p < pairs@.len() && pairs@[p].0 == k2,
                None => true,
            }) by {
                assert(before.contains_key(k2));
                if let Some(i) = array_index(k2) {
                    if i < new_len {
                        let p = choose|p: int| t <= p < pairs@.len() && pairs@[p].0 == k2;
                        if p == t {
                            assert(k2 == k);
                        }
                    }
                }
            }
            t = t + 1;
        }
        assert forall|k: Value| #[trigger] self.map@.contains_key(k) implies match array_index(k) {
            Some(i) => i >= self.array@.len(),
            None => true,
        } by {
            if let Some(i) = array_index(k) {
                if i < new_len {
                    let p = choose|p: int| t <= p < pairs@.len() && pairs@[p].0 == k;
                }
            }
        }
        assert forall|k: Value| is_canonical(k) implies lookup_in(self.array@, self.map@, k)
            == lookup_in(arr0, map0, k) by {
            if let Some(i) = array_index(k) {
                if old_len <= i < new_len {
                    lemma_index_key(k);
                }
            }
        }
        assert(self@ =~= old(self)@);
        proof {
            self.map.lemma_contents();
            vstd::set_lib::lemma_len_subset(self.map@.dom(), map0.dom());
        }
    }

    /// Overwrites the array slot of a valid key.
    fn write_slot(&mut self, index: usize, key: Value, value: Value) -> (r: Value)
        requires
            old(self).wf(),
            canonical(key) is Ok,
            array_index(key) == Some(index),
            index < old(self).array@.len(),
        ensures
            final(self).wf(),
            final(self).map_len() == old(self).map_len(),
            final(self).array@ == old(self).array@.update(index as int, value),
            final(self).map == old(self).map,
            final(self)@ == updated(old(self)@, key, value),
            r == value_at(old(self)@, key),
            value != Value::Nil && old(self).array@[index as int] != Value::Nil ==> same_keys(
                final(self).order(),
                old(self).order(),
            ),
    {
        proof {
            lemma_canonical_index(key);
            lemma_index_key(canonical(key)->Ok_0);
        }
        let ghost c = canonical(key)->Ok_0;
        let prior = self.array[index];
        self.array.set(index, value);
        assert forall|k: Value| is_canonical(k) && k != c implies lookup_in(self.array@, self.map@, k)
            == lookup_in(old(self).array@, old(self).map@, k) by {
            if let Some(i) = array_index(k) {
                if i == index {
                    lemma_index_key(k);
                }
            }
        }
        assert(self@ =~= updated(old(self)@, key, value));
        proof {
            if value != Value::Nil && prior != Value::Nil {
                lemma_array_pairs_same_keys(self.array@, old(self).array@);
                let o1 = self.order();
                let o2 = old(self).order();
                let d = array_pairs(self.array@).len();
                assert forall|p: int| 0 <= p < o1.len() implies #[trigger] o1[p].0 == o2[p].0 by {
                    if p >= d {
                        assert(o1[p] == self.map.order()[p - d]);
                    }
                }
            }
        }
        prior
    }

    /// Writes a valid key whose slot is not in the array part to the map
    /// part, where it is stored as its canonical form `k`.
    fn write_map(&mut self, k: Value, key: Value, value: Value) -> (r: Value)
        requires
            old(self).wf(),
            canonical(key) == Ok::<Value, InvalidTableKey>(k),
            match array_index(key) {
                Some(i) => i >= old(self).array@.len(),
                None => true,
            },
            old(self).map_len() < usize::MAX,
        ensures
            final(self).wf(),
            final(self).array@ == old(self).array@,
            final(self)@ == updated(old(self)@, key, value),
            r == value_at(old(self)@, key),
            final(self).map_len() <= old(self).map_len() + 1,
            value is Nil || old(self).map@.contains_key(k) || old(self).has_room()
                ==> final(self).map_room() == old(self).map_room(),
            value != Value::Nil && old(self).map@.contains_key(canonical(key)->Ok_0) ==> same_keys(
                final(self).order(),
                old(self).order(),
            ),
    {
        proof {
            lemma_canonical_index(key);
            self.map.lemma_contents();
        }
        let ghost c = k;
        let prior = if value.is_nil() {
            self.map.remove(k)
        } else {
            self.map.insert(k, value)
        };
        assert(self@ =~= updated(old(self)@, key, value));
        proof {
            old(self).map.lemma_contents();
            if value != Value::Nil && !old(self).map@.contains_key(c) {
                assert(self.map@.dom() =~= old(self).map@.dom().insert(c));
            }
            if value != Value::Nil && old(self).map@.contains_key(c) {
                let o1 = self.order();
                let o2 = old(self).order();
                let d = array_pairs(self.array@).len();
                assert forall|p: int| 0 <= p < o1.len() implies #[trigger] o1[p].0 == o2[p].0 by {
                    if p >= d {
                        assert(o1[p] == self.map.order()[p - d]);
                        assert(o2[p] == old(self).map.order()[p - d]);
                    }
                }
            }
        }
        match prior {
            Some(v) => v,
            None => Value::Nil,
        }
    }

    /// Stores `value` under `key` and returns the value it replaces; `Nil`
    /// deletes. `Nil` and NaN keys are refused and leave the table as it was.
    pub fn set(&mut self, key: Value, value: Value) -> (r: Result<Value, InvalidTableKey>)
        requires
            old(self).wf(),
            old(self).map_len() < usize::MAX,
        ensures
            final(self).wf(),
            final(self).map_len() <= old(self).map_len() + 1,
            match canonical(key) {
                Ok(_) => {
                    &&& r == Ok::<Value, InvalidTableKey>(value_at(old(self)@, key))
                    &&& final(self)@ == updated(old(self)@, key, value)
                },
                Err(e) => r == Err::<Value, InvalidTableKey>(e) && *final(self) == *old(self),
            },
            ({
                let c = canonical(key)->Ok_0;
                canonical(key) is Ok && old(self).in_array(c) ==> {
                    &&& final(self).array_view() == old(self).array_view().update(
                        array_index(c)->Some_0 as int,
                        value,
                    )
                    &&& final(self).map_order() == old(self).map_order()
                    &&& final(self).map_room() == old(self).map_room()
                }
            }),
            ({
                let c = canonical(key)->Ok_0;
                canonical(key) is Ok && !old(self).in_array(c) && !old(self).rebalances(key, value)
                    ==> final(self).array_view() == old(self).array_view() && final(self).map_room()
                    == old(self).map_room()
            }),
            old(self).rebalances(key, value) ==> final(self).array_len() == old(self).rebalanced_len(
                array_index(key),
            ),
            old(self).rebalances(key, value) && old(self).rebalanced_len(array_index(key))
                == old(self).array_len() ==> final(self).array_view() == old(self).array_view(),
            old(self).rebalances(key, value) && array_index(key) is Some && array_index(key)->Some_0
                < old(self).rebalanced_len(array_index(key)) ==> final(self).map_room()
                == old(self).map_room() && final(self).map_len() <= old(self).map_len(),
            ({
                let c = canonical(key)->Ok_0;
                canonical(key) is Ok && old(self)@.contains_key(c) && value != Value::Nil
                    ==> same_keys(final(self).order(), old(self).order())
            }),
    {
        let index_key = to_array_index(key);
        proof {
            if canonical(key) is Ok {
                lemma_canonical_index(key);
                self.map.lemma_contents();
            }
        }
        if let Some(index) = index_key {
            if index < self.array.len() {
                return Ok(self.write_slot(index, key, value));
            }
        }
        let table_key = match canonical_key(key) {
            Ok(k) => k,
            Err(e) => return Err(e),
        };
        // A pair already in the map part is overwritten where it stands.
        if value.is_nil() || self.map.room_left() || self.map.get(table_key).is_some() {
            return Ok(self.write_map(table_key, key, value));
        }
        // A new pair finds neither part with room: choose the array size
        // anew, counting the new key among the candidates.

        let (counts, total) = self.count_array_candidates(index_key);
        let optimal_size = optimal_array_size(&counts, total);
        assert(counts@ =~= Seq::new(
            65,
            |b: int| capped(in_bin(self.candidates(index_key), b as nat)) as usize,
        ));
        let old_array_size = self.array.len();
        if optimal_size > old_array_size {
            self.grow_array(optimal_size);
        } else {
            let old_map_size = self.map.len();
            let doubled: usize = if old_map_size <= usize::MAX / 2 { 2 * old_map_size } else { usize::MAX };
            self.map.grow_to(doubled);
            assert(self@ =~= old(self)@);
        }
        if let Some(index) = index_key {
            if index < self.array.len() {
                return Ok(self.write_slot(index, key, value));
            }
        }
        Ok(self.write_map(table_key, key, value))
    }

    /// The pair after `key` in the traversal order: the first pair for `Nil`,
    /// `Last` after the final pair, and `NotFound` for a key the table does
    /// not hold or that cannot be a key.
    pub fn next(&self, key: Value) -> (r: NextValue)
        requires
            self.wf(),
        ensures
            r == (if key is Nil {
                first_of(self.order())
            } else {
                match canonical(key) {
                    Ok(c) => follows(self.order(), c),
                    Err(_) => NextValue::NotFound,
                }
            }),
            match r {
                NextValue::Found { key: k, value: v } => {
                    &&& self@.contains_key(k)
                    &&& self@[k] == v
                    &&& is_canonical(k)
                    &&& v != Value::Nil
                },
                _ => true,
            },
    {
        let r = self.next_in_order(key);
        proof {
            self.lemma_order();
            let o = self.order();
            if r is Found {
                if key is Nil {
                    assert(o[0] == (r->Found_key, r->Found_value));
                } else {
                    let c = canonical(key)->Ok_0;
                    let p = choose|p: int| 0 <= p < o.len() && o[p].0 == c;
                    assert(o[p + 1] == (r->Found_key, r->Found_value));
                }
            }
        }
        r
    }

    /// The traversal step itself, stated over the order alone.
    fn next_in_order(&self, key: Value) -> (r: NextValue)
        requires
            self.wf(),
        ensures
            r == (if key is Nil {
                first_of(self.order())
            } else {
                match canonical(key) {
                    Ok(c) => follows(self.order(), c),
                    Err(_) => NextValue::NotFound,
                }
            }),
    {
        let ghost arr = self.array@;
        let ghost ap = array_pairs(arr);
        let ghost mo = self.map.order();
        let ghost o = self.order();
        proof {
            self.lemma_order();
            self.map.lemma_contents();
            assert(self.array.len() == arr.len());
        }
        let start: usize = if key.is_nil() {
            proof {
                assert(arr.take(0) =~= Seq::<Value>::empty());
            }
            0
        } else {
            match to_array_index(key) {
                Some(i) if i < self.array.len() => {
                    proof {
                        lemma_canonical_index(key);
                        lemma_index_key(canonical(key)->Ok_0);
                    }
                    if self.array[i].is_nil() {
                        proof {
                            let c = canonical(key)->Ok_0;
                            assert forall|p: int| 0 <= p < o.len() implies o[p].0 != c by {
                                if o[p].0 == c {
                                    assert(self@.contains_key(c));
                                }
                            }
                        }
                        return NextValue::NotFound;
                    }
                    proof {
                        lemma_array_pairs_index(arr, i as int);
                        lemma_follows_at(o, canonical(key)->Ok_0, count_before(arr, i as int));
                    }
                    i + 1
                },
                _ => {
                    return match canonical_key(key) {
                        Ok(c) => {
                            proof {
                                lemma_canonical_index(key);
                                assert forall|p: int| 0 <= p < ap.len() implies ap[p].0 != c by {
                                    lemma_array_pairs_origin(arr, p);
                                    let j = choose|j: int|
                                        0 <= j < arr.len() && arr[j] != Value::Nil && p
                                            == count_before(arr, j) && ap[p] == (
                                        Value::Integer((j + 1) as i64),
                                        arr[j],
                                    );
                                    lemma_slot_key(j, arr.len() as int);
                                }
                                lemma_follows_suffix(ap, mo, c);
                            }
                            self.map.next_after(c)
                        },
                        Err(_) => NextValue::NotFound,
                    };
                },
            }
        };
        let ghost target = count_before(arr, start as int);
        let ghost want = if key is Nil {
            first_of(self.order())
        } else {
            match canonical(key) {
                Ok(c) => follows(self.order(), c),
                Err(_) => NextValue::NotFound,
            }
        };
        assert(want == (if target < o.len() {
            NextValue::Found { key: o[target].0, value: o[target].1 }
        } else {
            NextValue::Last
        }));
        let mut j: usize = start;
        while j < self.array.len()
            invariant
                self.wf(),
                arr == self.array@,
                ap == array_pairs(arr),
                mo == self.map.order(),
                o == self.order(),
                o == ap + mo,
                want == (if key is Nil {
                    first_of(self.order())
                } else {
                    match canonical(key) {
                        Ok(c) => follows(self.order(), c),
                        Err(_) => NextValue::NotFound,
                    }
                }),
                want == (if target < o.len() {
                    NextValue::Found { key: o[target].0, value: o[target].1 }
                } else {
                    NextValue::Last
                }),
                start <= j <= arr.len(),
                count_before(arr, j as int) == target,
            decreases arr.len() - j,
        {
            if !self.array[j].is_nil() {
                proof {
                    lemma_array_pairs_index(arr, j as int);
                    assert(o[target] == ap[target]);
                }
                return NextValue::Found { key: Value::Integer((j + 1) as i64), value: self.array[j] };
            }
            proof {
                lemma_array_pairs_step(arr, j as int);
            }
            j = j + 1;
        }
        proof {
            lemma_array_pairs_end(arr);
            if mo.len() > 0 {
                assert(o[target] == mo[0]);
            }
        }
        self.map.first()
    }

    fn has_int(&self, i: i64) -> (r: bool)
        requires
            self.wf(),
        ensures
            r == has_int(self@, i as int),
    {
        !self.get(Value::Integer(i)).is_nil()
    }

    /// Binary search for a border between `min` and `max`.
    fn border_between(&self, min: i64, max: i64) -> (r: i64)
        requires
            self.wf(),
            0 <= min < max,
            min == 0 || has_int(self@, min as int),
            !has_int(self@, max as int),
        ensures
            is_border(self@, r as int),
    {
        let mut lo = min;
        let mut hi = max;
        while hi - lo > 1
            invariant
                self.wf(),
                0 <= lo < hi,
                lo == 0 || has_int(self@, lo as int),
                !has_int(self@, hi as int),
            decreases hi - lo,
        {
            let mid = lo + (hi - lo) / 2;
            if self.has_int(mid) {
                lo = mid;
            } else {
                hi = mid;
            }
        }
        lo
    }

    /// Some border of the table. When the integer keys with values form an
    /// unbroken run `1..=n`, that is `n`.
    pub fn length(&self) -> (r: i64)
        requires
            self.wf(),
        ensures
            is_border(self@, r as int),
    {
        let array_len = self.array.len() as i64;
        proof {
            assert forall|j: int| 1 <= j <= array_len implies #[trigger] has_int(self@, j) == (
            self.array@[j - 1] != Value::Nil) by {
                assert(array_index(Value::Integer(j as i64)) == Some((j - 1) as usize));
            }
        }
        if self.array.len() > 0 && self.array[self.array.len() - 1].is_nil() {
            // The array part ends in a hole, so it holds a border.
            assert(has_int(self@, array_len as int) == false);
            self.border_between(0, array_len)
        } else if self.map.len() == 0 {
            proof {
                self.map.lemma_contents();
                self.map@.dom().lemma_len0_is_empty();
                assert(!self.map@.contains_key(Value::Integer((array_len + 1) as i64)));
            }
            array_len
        } else {
            // The array part is full: double past its end until a key is
            // missing, then search between.
            assert(array_len == 0 || has_int(self@, array_len as int));
            let mut max: i64 = array_len + 1;
            while self.has_int(max)
                invariant
                    self.wf(),
                    0 <= array_len < max,
                    array_len == 0 || has_int(self@, array_len as int),
                decreases i64::MAX - max,
            {
                if max == i64::MAX {
                    return i64::MAX;
                }
                max = if max <= i64::MAX / 2 { max * 2 } else { i64::MAX };
            }
            self.border_between(array_len, max)
        }
    }

    /// The value under `key`; `Nil` when it is absent or cannot be a key.
    pub fn get(&self, key: Value) -> (r: Value)
        requires
            self.wf(),
        ensures
            r == value_at(self@, key),
    {
        proof {
            if canonical(key) is Ok {
                lemma_canonical_index(key);
            }
        }
        if let Some(index) = to_array_index(key) {
            if index < self.array.len() {
                return self.array[index];
            }
        }
        match canonical_key(key) {
            Ok(k) => match self.map.get(k) {
                Some(v) => v,
                None => Value::Nil,
            },
            Err(_) => Value::Nil,
        }
    }
}

} // verus!
