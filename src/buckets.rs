use vstd::prelude::*;
use crate::value::{Value, NextValue, follows, first_of, distinct_keys, same_keys};
use crate::key::{key_hash, key_hash_of, is_canonical};

verus! {

/// The bucket a key hashes to among `n` buckets.
pub open spec fn slot_of(k: Value, n: nat) -> int {
    (key_hash_of(k) as nat % n) as int
}

/// The buckets' pairs one after the other.
pub open spec fn flat(bs: Seq<Seq<(Value, Value)>>) -> Seq<(Value, Value)>
    decreases bs.len(),
{
    if bs.len() == 0 {
        Seq::empty()
    } else {
        flat(bs.drop_last()) + bs.last()
    }
}

proof fn lemma_flat_step(bs: Seq<Seq<(Value, Value)>>, m: int)
    requires
        0 <= m < bs.len(),
    ensures
        flat(bs.take(m + 1)) == flat(bs.take(m)) + bs[m],
{
    assert(bs.take(m + 1).drop_last() =~= bs.take(m));
}

proof fn lemma_flat_prefix(bs: Seq<Seq<(Value, Value)>>, m: int)
    requires
        0 <= m <= bs.len(),
    ensures
        flat(bs.take(m)).len() <= flat(bs).len(),
        flat(bs).take(flat(bs.take(m)).len() as int) == flat(bs.take(m)),
    decreases bs.len(),
{
    if m == bs.len() {
        assert(bs.take(m) =~= bs);
        assert(flat(bs).take(flat(bs).len() as int) =~= flat(bs));
    } else {
        let d = bs.drop_last();
        lemma_flat_prefix(d, m);
        assert(d.take(m) =~= bs.take(m));
        assert(flat(bs).take(flat(bs.take(m)).len() as int) =~= flat(d).take(
            flat(bs.take(m)).len() as int,
        ));
    }
}

proof fn lemma_flat_same_keys(bs1: Seq<Seq<(Value, Value)>>, bs2: Seq<Seq<(Value, Value)>>)
    requires
        bs1.len() == bs2.len(),
        forall|b: int| 0 <= b < bs1.len() ==> same_keys(#[trigger] bs1[b], bs2[b]),
    ensures
        same_keys(flat(bs1), flat(bs2)),
    decreases bs1.len(),
{
    if bs1.len() > 0 {
        let n = bs1.len() - 1;
        lemma_flat_same_keys(bs1.drop_last(), bs2.drop_last());
        assert(same_keys(bs1[n], bs2[n]));
        let f1 = flat(bs1);
        let f2 = flat(bs2);
        let d = flat(bs1.drop_last()).len();
        assert forall|p: int| 0 <= p < f1.len() implies #[trigger] f1[p].0 == f2[p].0 by {
            if p >= d {
                assert(f1[p] == bs1[n][p - d]);
                assert(f2[p] == bs2[n][p - d]);
            }
        }
    }
}

/// Where bucket `b` begins in the flattened order.
pub open spec fn offset(bs: Seq<Seq<(Value, Value)>>, b: int) -> int {
    flat(bs.take(b)).len() as int
}

proof fn lemma_flat_index(bs: Seq<Seq<(Value, Value)>>, b: int, j: int)
    requires
        0 <= b < bs.len(),
        0 <= j < bs[b].len(),
    ensures
        offset(bs, b) + j < flat(bs).len(),
        flat(bs)[offset(bs, b) + j] == bs[b][j],
        offset(bs, b + 1) == offset(bs, b) + bs[b].len(),
{
    lemma_flat_step(bs, b);
    lemma_flat_prefix(bs, b + 1);
    let f = flat(bs.take(b + 1));
    assert(f[offset(bs, b) + j] == bs[b][j]);
    assert(flat(bs).take(f.len() as int)[offset(bs, b) + j] == f[offset(bs, b) + j]);
}

proof fn lemma_flat_end(bs: Seq<Seq<(Value, Value)>>)
    ensures
        offset(bs, bs.len() as int) == flat(bs).len(),
{
    assert(bs.take(bs.len() as int) =~= bs);
}

proof fn lemma_flat_origin(bs: Seq<Seq<(Value, Value)>>, p: int)
    requires
        0 <= p < flat(bs).len(),
    ensures
        exists|b: int, j: int|
            0 <= b < bs.len() && 0 <= j < bs[b].len() && p == offset(bs, b) + j && flat(bs)[p]
                == bs[b][j],
    decreases bs.len(),
{
    let d = bs.drop_last();
    let n = bs.len() - 1;
    assert(bs.take(n) =~= d);
    if p < flat(d).len() {
        lemma_flat_origin(d, p);
        let (b, j) = choose|b: int, j: int|
            0 <= b < d.len() && 0 <= j < d[b].len() && p == offset(d, b) + j && flat(d)[p]
                == d[b][j];
        assert(d.take(b) =~= bs.take(b));
        assert(flat(bs)[p] == bs[b][j]);
    } else {
        let j = p - flat(d).len();
        assert(flat(bs)[p] == bs[n][j]);
    }
}

/// The map part of a table: a hash table whose buckets hold their pairs in
/// the order they arrived. Its keys are canonical and its values never `Nil`.
pub struct HashPart {
    buckets: Vec<Vec<(Value, Value)>>,
    len: usize,
    contents: Ghost<Map<Value, Value>>,
}

impl HashPart {
    pub closed spec fn view(&self) -> Map<Value, Value> {
        self.contents@
    }

    spec fn bucket_seqs(&self) -> Seq<Seq<(Value, Value)>> {
        Seq::new(self.buckets@.len(), |b: int| self.buckets@[b]@)
    }

    /// The traversal order: bucket by bucket, each in its own order.
    pub closed spec fn order(&self) -> Seq<(Value, Value)> {
        flat(self.bucket_seqs())
    }

    /// How many pairs fit before the table grows.
    pub closed spec fn room(&self) -> nat {
        self.buckets@.len()
    }

    spec fn bucket(&self, b: int) -> Seq<(Value, Value)> {
        self.buckets@[b]@
    }

    spec fn holds_at(&self, k: Value, j: int) -> bool {
        let n = self.buckets@.len();
        &&& n > 0
        &&& 0 <= j < self.bucket(slot_of(k, n)).len()
        &&& self.bucket(slot_of(k, n))[j].0 == k
    }

    pub closed spec fn wf(&self) -> bool {
        let n = self.buckets@.len();
        &&& self.contents@.dom().finite()
        &&& self.len == self.contents@.len()
        &&& forall|b: int, j: int|
            #![trigger self.buckets@[b]@[j]]
            0 <= b < n && 0 <= j < self.buckets@[b]@.len() ==> {
                &&& slot_of(self.buckets@[b]@[j].0, n) == b
                &&& self.contents@.contains_key(self.buckets@[b]@[j].0)
                &&& self.contents@[self.buckets@[b]@[j].0] == self.buckets@[b]@[j].1
            }
        &&& forall|b: int, i: int, j: int|
            #![trigger self.buckets@[b]@[i], self.buckets@[b]@[j]]
            0 <= b < n && 0 <= i < self.buckets@[b]@.len() && 0 <= j < self.buckets@[b]@.len()
                && self.buckets@[b]@[i].0 == self.buckets@[b]@[j].0 ==> i == j
        &&& forall|k: Value|
            #[trigger] self.contents@.contains_key(k) ==> {
                &&& is_canonical(k)
                &&& self.contents@[k] != Value::Nil
                &&& exists|j: int| self.holds_at(k, j)
            }
    }

    /// Keys are canonical and values never `Nil`.
    pub proof fn lemma_contents(&self)
        requires
            self.wf(),
        ensures
            self@.dom().finite(),
            forall|k: Value| #[trigger] self@.contains_key(k) ==> is_canonical(k) && self@[k]
                != Value::Nil,
    {
    }

    /// The traversal holds each stored pair once and nothing else.
    pub proof fn lemma_order(&self)
        requires
            self.wf(),
        ensures
            distinct_keys(self.order()),
            forall|p: int|
                0 <= p < self.order().len() ==> #[trigger] self@.contains_key(self.order()[p].0)
                    && self@[self.order()[p].0] == self.order()[p].1,
            forall|k: Value|
                #[trigger] self@.contains_key(k) ==> exists|p: int|
                    0 <= p < self.order().len() && self.order()[p].0 == k,
    {
        let bs = self.bucket_seqs();
        assert forall|p: int| 0 <= p < self.order().len() implies #[trigger] self@.contains_key(
            self.order()[p].0,
        ) && self@[self.order()[p].0] == self.order()[p].1 by {
            lemma_flat_origin(bs, p);
            let (b, j) = choose|b: int, j: int|
                0 <= b < bs.len() && 0 <= j < bs[b].len() && p == offset(bs, b) + j && flat(bs)[p]
                    == bs[b][j];
            assert(self.buckets@[b]@[j] == bs[b][j]);
        }
        assert forall|k: Value| #[trigger] self@.contains_key(k) implies exists|p: int|
            0 <= p < self.order().len() && self.order()[p].0 == k by {
            let j = choose|j: int| self.holds_at(k, j);
            let b = slot_of(k, self.buckets@.len() as nat);
            lemma_flat_index(bs, b, j);
            assert(self.order()[offset(bs, b) + j].0 == k);
        }
        assert forall|p: int, q: int|
            0 <= p < self.order().len() && 0 <= q < self.order().len() && #[trigger] self.order()[p].0
                == #[trigger] self.order()[q].0 implies p == q by {
            lemma_flat_origin(bs, p);
            lemma_flat_origin(bs, q);
            let (b, j) = choose|b: int, j: int|
                0 <= b < bs.len() && 0 <= j < bs[b].len() && p == offset(bs, b) + j && flat(bs)[p]
                    == bs[b][j];
            let (c, i) = choose|c: int, i: int|
                0 <= c < bs.len() && 0 <= i < bs[c].len() && q == offset(bs, c) + i && flat(bs)[q]
                    == bs[c][i];
            assert(self.buckets@[b]@[j] == bs[b][j]);
            assert(self.buckets@[c]@[i] == bs[c][i]);
        }
    }

    /// The first pair at or after the start of bucket `b`.
    fn first_from(&self, b: usize) -> (r: NextValue)
        requires
            self.wf(),
            b <= self.buckets@.len(),
        ensures
            r == (if offset(self.bucket_seqs(), b as int) < self.order().len() {
                NextValue::Found {
                    key: self.order()[offset(self.bucket_seqs(), b as int)].0,
                    value: self.order()[offset(self.bucket_seqs(), b as int)].1,
                }
            } else {
                NextValue::Last
            }),
    {
        let ghost bs = self.bucket_seqs();
        let mut c: usize = b;
        while c < self.buckets.len()
            invariant
                self.wf(),
                bs == self.bucket_seqs(),
                b <= c <= self.buckets@.len(),
                offset(bs, c as int) == offset(bs, b as int),
            decreases self.buckets@.len() - c,
        {
            if self.buckets[c].len() > 0 {
                proof {
                    lemma_flat_index(bs, c as int, 0);
                }
                return NextValue::Found { key: self.buckets[c][0].0, value: self.buckets[c][0].1 };
            }
            proof {
                lemma_flat_step(bs, c as int);
                assert(bs[c as int] =~= Seq::<(Value, Value)>::empty());
                assert(flat(bs.take(c + 1)) =~= flat(bs.take(c as int)));
            }
            c = c + 1;
        }
        proof {
            lemma_flat_end(bs);
        }
        NextValue::Last
    }

    /// The first pair of the traversal.
    pub fn first(&self) -> (r: NextValue)
        requires
            self.wf(),
        ensures
            r == first_of(self.order()),
    {
        proof {
            assert(self.bucket_seqs().take(0) =~= Seq::<Seq<(Value, Value)>>::empty());
        }
        self.first_from(0)
    }

    /// The pair after the canonical key `k` in the traversal.
    pub fn next_after(&self, k: Value) -> (r: NextValue)
        requires
            self.wf(),
            is_canonical(k),
        ensures
            r == follows(self.order(), k),
    {
        proof {
            self.lemma_order();
        }
        if self.buckets.len() == 0 {
            return NextValue::NotFound;
        }
        let b = self.slot(k);
        match self.position(k, b) {
            Some(j) => {
                let ghost bs = self.bucket_seqs();
                proof {
                    lemma_flat_index(bs, b as int, j as int);
                    assert(self.order()[offset(bs, b as int) + j].0 == k);
                }
                if j < self.buckets[b].len() - 1 {
                    proof {
                        lemma_flat_index(bs, b as int, j + 1);
                    }
                    NextValue::Found { key: self.buckets[b][j + 1].0, value: self.buckets[b][j + 1].1 }
                } else {
                    self.first_from(b + 1)
                }
            },
            None => NextValue::NotFound,
        }
    }

    /// The stored pairs in traversal order.
    pub fn pairs(&self) -> (r: Vec<(Value, Value)>)
        requires
            self.wf(),
        ensures
            r@ == self.order(),
    {
        let ghost bs = self.bucket_seqs();
        let mut out: Vec<(Value, Value)> = Vec::new();
        let mut b: usize = 0;
        while b < self.buckets.len()
            invariant
                self.wf(),
                bs == self.bucket_seqs(),
                b <= self.buckets@.len(),
                out@ == flat(bs.take(b as int)),
            decreases self.buckets@.len() - b,
        {
            let bucket = &self.buckets[b];
            let mut j: usize = 0;
            while j < bucket.len()
                invariant
                    b < self.buckets@.len(),
                    bs == self.bucket_seqs(),
                    *bucket == self.buckets@[b as int],
                    j <= bucket@.len(),
                    out@ == flat(bs.take(b as int)) + bucket@.take(j as int),
                decreases bucket@.len() - j,
            {
                out.push(bucket[j]);
                proof {
                    assert(bucket@.take(j + 1) =~= bucket@.take(j as int).push(bucket@[j as int]));
                }
                j = j + 1;
            }
            proof {
                lemma_flat_step(bs, b as int);
                assert(bucket@.take(j as int) =~= bucket@);
                assert(bs[b as int] == bucket@);
            }
            b = b + 1;
        }
        proof {
            assert(bs.take(b as int) =~= bs);
        }
        out
    }

    pub fn new() -> (r: HashPart)
        ensures
            r.wf(),
            r@ == Map::<Value, Value>::empty(),
            r.room() == 0,
    {
        HashPart { buckets: Vec::new(), len: 0, contents: Ghost(Map::empty()) }
    }

    pub fn len(&self) -> (r: usize)
        requires
            self.wf(),
        ensures
            r == self@.len(),
    {
        self.len
    }

    pub fn room_left(&self) -> (r: bool)
        requires
            self.wf(),
        ensures
            r == (self@.len() < self.room()),
    {
        self.len < self.buckets.len()
    }

    /// Where `k` stands in its bucket, if it is present.
    fn position(&self, k: Value, b: usize) -> (r: Option<usize>)
        requires
            self.wf(),
            is_canonical(k),
            self.buckets@.len() > 0,
            b == slot_of(k, self.buckets@.len() as nat),
        ensures
            match r {
                Some(j) => self.holds_at(k, j as int) && self@.contains_key(k),
                None => !self@.contains_key(k),
            },
    {
        let bucket = &self.buckets[b];
        let mut j: usize = 0;
        while j < bucket.len()
            invariant
                self.wf(),
                0 < self.buckets@.len(),
                b == slot_of(k, self.buckets@.len() as nat),
                *bucket == self.buckets@[b as int],
                j <= bucket@.len(),
                forall|i: int| 0 <= i < j ==> bucket@[i].0 != k,
            decreases bucket@.len() - j,
        {
            if bucket[j].0 == k {
                assert(self.buckets@[b as int]@[j as int].0 == k);
                return Some(j);
            }
            j = j + 1;
        }
        None
    }

    fn slot(&self, k: Value) -> (b: usize)
        requires
            is_canonical(k),
            self.buckets@.len() > 0,
        ensures
            b == slot_of(k, self.buckets@.len() as nat),
    {
        (key_hash(k) % (self.buckets.len() as u64)) as usize
    }

    /// Adds a key that is not present yet.
    fn push_new(&mut self, k: Value, v: Value)
        requires
            old(self).wf(),
            is_canonical(k),
            v != Value::Nil,
            !old(self)@.contains_key(k),
            old(self).buckets@.len() > 0,
            old(self)@.len() < usize::MAX,
        ensures
            final(self).wf(),
            final(self)@ == old(self)@.insert(k, v),
            final(self).room() == old(self).room(),
    {
        let b = self.slot(k);
        let ghost old_self = *self;
        self.buckets[b].push((k, v));
        self.len = self.len + 1;
        self.contents = Ghost(self.contents@.insert(k, v));
        assert(self.holds_at(k, old_self.buckets@[b as int]@.len() as int));
        assert forall|k2: Value| #[trigger] self.contents@.contains_key(k2) implies {
            &&& is_canonical(k2)
            &&& self.contents@[k2] != Value::Nil
            &&& exists|j: int| self.holds_at(k2, j)
        } by {
            if k2 != k {
                let j = choose|j: int| old_self.holds_at(k2, j);
                assert(self.holds_at(k2, j));
            }
        }
    }

    /// The same pairs, spread over `n` buckets.
    fn rebuilt(&self, n: usize) -> (r: HashPart)
        requires
            self.wf(),
            n > 0,
        ensures
            r.wf(),
            r@ == self@,
            r.room() == n,
    {
        let mut empty: Vec<Vec<(Value, Value)>> = Vec::new();
        let mut i: usize = 0;
        while i < n
            invariant
                i <= n,
                empty@.len() == i,
                forall|c: int| 0 <= c < i ==> (#[trigger] empty@[c])@.len() == 0,
            decreases n - i,
        {
            empty.push(Vec::new());
            i = i + 1;
        }
        let mut out = HashPart { buckets: empty, len: 0, contents: Ghost(Map::empty()) };
        let old_n = self.buckets.len();
        let mut b: usize = 0;
        while b < old_n
            invariant
                self.wf(),
                old_n == self.buckets@.len(),
                b <= old_n,
                out.wf(),
                out.buckets@.len() == n,
                n > 0,
                forall|k: Value| #[trigger] out@.contains_key(k) <==> (self@.contains_key(k)
                    && slot_of(k, old_n as nat) < b),
                forall|k: Value| #[trigger] out@.contains_key(k) ==> out@[k] == self@[k],
            decreases old_n - b,
        {
            let bucket = &self.buckets[b];
            let mut j: usize = 0;
            while j < bucket.len()
                invariant
                    self.wf(),
                    old_n == self.buckets@.len(),
                    b < old_n,
                    *bucket == self.buckets@[b as int],
                    j <= bucket@.len(),
                    out.wf(),
                    out.buckets@.len() == n,
                    n > 0,
                    forall|k: Value| #[trigger] out@.contains_key(k) <==> (self@.contains_key(k)
                        && (slot_of(k, old_n as nat) < b || (slot_of(k, old_n as nat) == b
                        && exists|i: int| 0 <= i < j && bucket@[i].0 == k))),
                    forall|k: Value| #[trigger] out@.contains_key(k) ==> out@[k] == self@[k],
                decreases bucket@.len() - j,
            {
                let (k, v) = bucket[j];
                assert(self.buckets@[b as int]@[j as int] == (k, v));
                assert(!out@.contains_key(k)) by {
                    if out@.contains_key(k) {
                        let i = choose|i: int| 0 <= i < j && bucket@[i].0 == k;
                        assert(self.buckets@[b as int]@[i] == bucket@[i]);
                    }
                }
                proof {
                    vstd::set_lib::lemma_len_subset(out@.dom(), self@.dom());
                    assert(out@.dom().len() < self@.dom().len()) by {
                        vstd::set_lib::lemma_len_subset(out@.dom(), self@.dom().remove(k));
                    }
                }
                out.push_new(k, v);
                assert forall|k2: Value| #[trigger] out@.contains_key(k2) <==> (self@.contains_key(k2)
                    && (slot_of(k2, old_n as nat) < b || (slot_of(k2, old_n as nat) == b
                    && exists|i: int| 0 <= i < j + 1 && bucket@[i].0 == k2))) by {
                    if k2 == k {
                        assert(bucket@[j as int].0 == k2);
                    }
                    if self@.contains_key(k2) && slot_of(k2, old_n as nat) == b && k2 != k {
                        if exists|i: int| 0 <= i < j + 1 && bucket@[i].0 == k2 {
                            let i = choose|i: int| 0 <= i < j + 1 && bucket@[i].0 == k2;
                            assert(i != j);
                        }
                    }
                }
                j = j + 1;
            }
            assert forall|k: Value| #[trigger] out@.contains_key(k) <==> (self@.contains_key(k)
                && slot_of(k, old_n as nat) < b + 1) by {
                if self@.contains_key(k) && slot_of(k, old_n as nat) == b {
                    let i = choose|i: int| self.holds_at(k, i);
                    assert(bucket@[i].0 == k);
                }
            }
            b = b + 1;
        }
        assert(out@ =~= self@);
        out
    }

    /// Spreads the pairs over `n` buckets when that is more than there are.
    pub fn grow_to(&mut self, n: usize)
        requires
            old(self).wf(),
        ensures
            final(self).wf(),
            final(self)@ == old(self)@,
            final(self).room() == (if n > old(self).room() { n as nat } else { old(self).room() }),
    {
        if n > self.buckets.len() {
            *self = self.rebuilt(n);
        }
    }

    /// Stores `v` under `k` and returns what was there. A new key that finds
    /// the table full first doubles the buckets (four when there are none).
    pub fn insert(&mut self, k: Value, v: Value) -> (r: Option<Value>)
        requires
            old(self).wf(),
            is_canonical(k),
            v != Value::Nil,
            old(self)@.len() < usize::MAX,
        ensures
            final(self).wf(),
            final(self)@ == old(self)@.insert(k, v),
            r == (if old(self)@.contains_key(k) { Some(old(self)@[k]) } else { None::<Value> }),
            old(self)@.contains_key(k) || old(self)@.len() < old(self).room() ==> final(self).room()
                == old(self).room(),
            old(self)@.contains_key(k) ==> same_keys(final(self).order(), old(self).order()),
    {
        if self.buckets.len() > 0 {
            let b = self.slot(k);
            if let Some(j) = self.position(k, b) {
                let ghost old_self = *self;
                let old_value = self.buckets[b][j].1;
                self.buckets[b].set(j, (k, v));
                self.contents = Ghost(self.contents@.insert(k, v));
                assert(self.contents@ =~= old_self.contents@.insert(k, v));
                proof {
                    let bs1 = self.bucket_seqs();
                    let bs2 = old_self.bucket_seqs();
                    assert forall|c: int| 0 <= c < bs1.len() implies same_keys(#[trigger] bs1[c], bs2[c]) by {
                        if c != b {
                            assert(bs1[c] == bs2[c]);
                        }
                    }
                    lemma_flat_same_keys(bs1, bs2);
                }
                assert forall|k2: Value| #[trigger] self.contents@.contains_key(k2) implies {
                    &&& is_canonical(k2)
                    &&& self.contents@[k2] != Value::Nil
                    &&& exists|j: int| self.holds_at(k2, j)
                } by {
                    let j2 = choose|j: int| old_self.holds_at(k2, j);
                    assert(self.holds_at(k2, j2));
                }
                return Some(old_value);
            }
        }
        if self.len >= self.buckets.len() {
            let n = self.buckets.len();
            let target: usize = if n == 0 { 4 } else if n <= usize::MAX / 2 { 2 * n } else { usize::MAX };
            self.grow_to(target);
        }
        if self.buckets.len() == 0 {
            self.grow_to(4);
        }
        self.push_new(k, v);
        None
    }

    /// Takes `k` out and returns what was stored under it.
    pub fn remove(&mut self, k: Value) -> (r: Option<Value>)
        requires
            old(self).wf(),
            is_canonical(k),
        ensures
            final(self).wf(),
            final(self)@ == old(self)@.remove(k),
            r == (if old(self)@.contains_key(k) { Some(old(self)@[k]) } else { None::<Value> }),
            final(self).room() == old(self).room(),
    {
        if self.buckets.len() == 0 {
            assert(self.contents@ =~= self.contents@.remove(k));
            return None;
        }
        let b = self.slot(k);
        match self.position(k, b) {
            Some(j) => {
                let ghost old_self = *self;
                let (_, old_value) = self.buckets[b].remove(j);
                self.len = self.len - 1;
                self.contents = Ghost(self.contents@.remove(k));
                assert forall|b2: int, i: int|
                    0 <= b2 < self.buckets@.len() && 0 <= i < self.buckets@[b2]@.len() implies {
                    &&& slot_of(self.buckets@[b2]@[i].0, self.buckets@.len() as nat) == b2
                    &&& self.contents@.contains_key(self.buckets@[b2]@[i].0)
                    &&& self.contents@[self.buckets@[b2]@[i].0] == self.buckets@[b2]@[i].1
                } by {
                    if b2 == b {
                        if i < j {
                            assert(self.buckets@[b2]@[i] == old_self.buckets@[b2]@[i]);
                            assert(old_self.buckets@[b2]@[i].0 != k);
                        } else {
                            assert(self.buckets@[b2]@[i] == old_self.buckets@[b2]@[i + 1]);
                            assert(old_self.buckets@[b2]@[i + 1].0 != k);
                        }
                    } else {
                        assert(self.buckets@[b2] == old_self.buckets@[b2]);
                    }
                }
                assert forall|b2: int, i: int, i2: int|
                    0 <= b2 < self.buckets@.len() && 0 <= i < self.buckets@[b2]@.len() && 0 <= i2
                        < self.buckets@[b2]@.len() && self.buckets@[b2]@[i].0
                        == self.buckets@[b2]@[i2].0 implies i == i2 by {
                    if b2 == b {
                        let oi = if i < j { i } else { i + 1 };
                        let oi2 = if i2 < j { i2 } else { i2 + 1 };
                        assert(old_self.buckets@[b2]@[oi] == self.buckets@[b2]@[i]);
                        assert(old_self.buckets@[b2]@[oi2] == self.buckets@[b2]@[i2]);
                    } else {
                        assert(self.buckets@[b2] == old_self.buckets@[b2]);
                        assert(old_self.buckets@[b2]@[i] == self.buckets@[b2]@[i]);
                        assert(old_self.buckets@[b2]@[i2] == self.buckets@[b2]@[i2]);
                    }
                }
                assert forall|k2: Value| #[trigger] self.contents@.contains_key(k2) implies {
                    &&& is_canonical(k2)
                    &&& self.contents@[k2] != Value::Nil
                    &&& exists|j: int| self.holds_at(k2, j)
                } by {
                    let j2 = choose|i: int| old_self.holds_at(k2, i);
                    let n = self.buckets@.len() as nat;
                    if slot_of(k2, n) == b {
                        assert(j2 != j);
                        if j2 < j {
                            assert(self.holds_at(k2, j2));
                        } else {
                            assert(self.holds_at(k2, j2 - 1));
                        }
                    } else {
                        assert(self.holds_at(k2, j2));
                    }
                }
                Some(old_value)
            },
            None => {
                assert(self.contents@ =~= self.contents@.remove(k));
                None
            },
        }
    }

    /// The value stored under the canonical key `k`.
    pub fn get(&self, k: Value) -> (r: Option<Value>)
        requires
            self.wf(),
            is_canonical(k),
        ensures
            r == (if self@.contains_key(k) { Some(self@[k]) } else { None::<Value> }),
    {
        if self.buckets.len() == 0 {
            return None;
        }
        let b = self.slot(k);
        match self.position(k, b) {
            Some(j) => {
                assert(self.buckets@[b as int]@[j as int].0 == k);
                Some(self.buckets[b][j].1)
            },
            None => None,
        }
    }
}

} // verus!
