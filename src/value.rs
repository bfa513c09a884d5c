use vstd::prelude::*;
use crate::table::Table;

verus! {

/// A runtime value of the scripting language.
///
/// A `Number` holds the IEEE-754 bit pattern of a 64-bit float; the reference
/// kinds hold a handle whose identity is the value's identity.
#[derive(Clone, Copy, Debug, PartialEq, Eq, Hash, Structural)]
pub enum Value {
    Nil,
    Boolean(bool),
    Integer(i64),
    Number(u64),
    String(u64),
    Table(Table),
    Function(u64),
    Thread(u64),
    UserData(u64),
}

/// What `next` finds after a key.
#[derive(Clone, Copy, Debug, PartialEq, Eq, Structural)]
pub enum NextValue {
    Found { key: Value, value: Value },
    Last,
    NotFound,
}

/// What follows the pair whose key is `k` in the traversal `order`: the next
/// pair, `Last` after the final one, `NotFound` when no pair has that key.
pub open spec fn follows(order: Seq<(Value, Value)>, k: Value) -> NextValue {
    if exists|p: int| 0 <= p < order.len() && order[p].0 == k {
        let p = choose|p: int| 0 <= p < order.len() && order[p].0 == k;
        if p + 1 < order.len() {
            NextValue::Found { key: order[p + 1].0, value: order[p + 1].1 }
        } else {
            NextValue::Last
        }
    } else {
        NextValue::NotFound
    }
}

/// The first pair of a traversal, or `Last` when there is none.
pub open spec fn first_of(order: Seq<(Value, Value)>) -> NextValue {
    if order.len() > 0 {
        NextValue::Found { key: order[0].0, value: order[0].1 }
    } else {
        NextValue::Last
    }
}

/// No key occurs twice.
pub open spec fn distinct_keys(order: Seq<(Value, Value)>) -> bool {
    forall|p: int, q: int|
        0 <= p < order.len() && 0 <= q < order.len() && #[trigger] order[p].0 == #[trigger] order[q].0
            ==> p == q
}

/// Two traversals visit the same keys in the same order.
pub open spec fn same_keys(a: Seq<(Value, Value)>, b: Seq<(Value, Value)>) -> bool {
    a.len() == b.len() && forall|p: int| 0 <= p < a.len() ==> #[trigger] a[p].0 == b[p].0
}

impl Value {
    pub fn is_nil(&self) -> (r: bool)
        ensures
            r == (*self is Nil),
    {
        match self {
            Value::Nil => true,
            _ => false,
        }
    }
}

} // verus!
