use vstd::prelude::*;
use crate::value::{Value, NextValue, follows, first_of, same_keys};
use crate::key::{InvalidTableKey, canonical, array_index};
use crate::entries::{TableEntries, value_at, updated, is_border};

verus! {

/// A table: a handle to a record in a `TableArena`. Two handles are equal
/// exactly when they name the same record.
#[derive(Clone, Copy, Debug, PartialEq, Eq, Hash, Structural)]
pub struct Table(pub usize);

/// The record a `Table` names: its entries and its metatable.
pub struct TableState {
    pub entries: TableEntries,
    pub metatable: Option<Table>,
}

impl Default for TableState {
    fn default() -> (r: TableState)
        ensures
            r.entries.wf(),
            r.entries@ == Map::<Value, Value>::empty(),
            r.metatable == None::<Table>,
    {
        TableState { entries: TableEntries::new(), metatable: None }
    }
}

/// The records of all tables; a handle stays valid for the arena's lifetime.
pub struct TableArena {
    states: Vec<TableState>,
}

impl TableArena {
    pub closed spec fn len(&self) -> nat {
        self.states@.len()
    }

    /// Whether `t` names a record of this arena.
    pub open spec fn holds(&self, t: Table) -> bool {
        t.0 < self.len()
    }

    /// The entries of the record `t`.
    pub closed spec fn entries_of(&self, t: Table) -> TableEntries {
        self.states@[t.0 as int].entries
    }

    /// The key-to-value mapping of the table `t`.
    pub open spec fn contents(&self, t: Table) -> Map<Value, Value> {
        self.entries_of(t)@
    }

    /// The traversal order of the table `t`.
    pub open spec fn order(&self, t: Table) -> Seq<(Value, Value)> {
        self.entries_of(t).order()
    }

    pub closed spec fn metatable_of(&self, t: Table) -> Option<Table> {
        self.states@[t.0 as int].metatable
    }

    pub closed spec fn wf(&self) -> bool {
        forall|i: int| 0 <= i < self.states@.len() ==> (#[trigger] self.states@[i]).entries.wf()
    }

    /// Every table of a well-formed arena has well-formed entries, so the
    /// facts of `TableEntries` (`lemma_layout`, `lemma_order`) apply to it.
    pub proof fn lemma_entries_wf(&self, t: Table)
        requires
            self.wf(),
            self.holds(t),
        ensures
            self.entries_of(t).wf(),
    {
    }

    pub fn new() -> (r: TableArena)
        ensures
            r.wf(),
            r.len() == 0,
    {
        TableArena { states: Vec::new() }
    }
}

impl Table {
    /// A new empty table without a metatable.
    pub fn new(arena: &mut TableArena) -> (r: Table)
        requires
            old(arena).wf(),
        ensures
            final(arena).wf(),
            final(arena).len() == old(arena).len() + 1,
            r.0 == old(arena).len(),
            final(arena).contents(r) == Map::<Value, Value>::empty(),
            final(arena).order(r) == Seq::<(Value, Value)>::empty(),
            final(arena).entries_of(r).map_len() == 0,
            final(arena).entries_of(r).map_room() == 0,
            final(arena).entries_of(r).array_view() == Seq::<Value>::empty(),
            final(arena).metatable_of(r) == None::<Table>,
            forall|t: Table| #[trigger] old(arena).holds(t) ==> final(arena).entries_of(t)
                == old(arena).entries_of(t) && final(arena).metatable_of(t)
                == old(arena).metatable_of(t),
    {
        let r = Table(arena.states.len());
        arena.states.push(TableState { entries: TableEntries::new(), metatable: None });
        r
    }

    /// The value under `key`; `Nil` when it is absent or cannot be a key.
    pub fn get(&self, arena: &TableArena, key: Value) -> (r: Value)
        requires
            arena.wf(),
            arena.holds(*self),
        ensures
            r == value_at(arena.contents(*self), key),
    {
        arena.states[self.0].entries.get(key)
    }

    /// Stores `value` under `key` and returns the value it replaces; `Nil`
    /// deletes. `Nil` and NaN keys are refused and change nothing.
    pub fn set(&self, arena: &mut TableArena, key: Value, value: Value) -> (r: Result<
        Value,
        InvalidTableKey,
    >)
        requires
            old(arena).wf(),
            old(arena).holds(*self),
            old(arena).entries_of(*self).map_len() < usize::MAX,
        ensures
            final(arena).wf(),
            final(arena).len() == old(arena).len(),
            final(arena).entries_of(*self).map_len() <= old(arena).entries_of(*self).map_len() + 1,
            match canonical(key) {
                Ok(_) => {
                    &&& r == Ok::<Value, InvalidTableKey>(value_at(old(arena).contents(*self), key))
                    &&& final(arena).contents(*self) == updated(old(arena).contents(*self), key, value)
                },
                Err(e) => r == Err::<Value, InvalidTableKey>(e) && final(arena).entries_of(*self)
                    == old(arena).entries_of(*self),
            },
            ({
                let (o, f) = (old(arena).entries_of(*self), final(arena).entries_of(*self));
                let c = canonical(key)->Ok_0;
                &&& canonical(key) is Ok && o.in_array(c) ==> {
                    &&& f.array_view() == o.array_view().update(array_index(c)->Some_0 as int, value)
                    &&& f.map_order() == o.map_order()
                    &&& f.map_room() == o.map_room()
                }
                &&& canonical(key) is Ok && !o.in_array(c) && !o.rebalances(key, value) ==> f.array_view()
                    == o.array_view() && f.map_room() == o.map_room()
                &&& o.rebalances(key, value) ==> f.array_len() == o.rebalanced_len(array_index(key))
                &&& o.rebalances(key, value) && o.rebalanced_len(array_index(key)) == o.array_len()
                    ==> f.array_view() == o.array_view()
                &&& o.rebalances(key, value) && array_index(key) is Some && array_index(key)->Some_0
                    < o.rebalanced_len(array_index(key)) ==> f.map_room() == o.map_room()
                    && f.map_len() <= o.map_len()
                &&& canonical(key) is Ok && o@.contains_key(c) && value != Value::Nil ==> same_keys(
                    f.order(),
                    o.order(),
                )
            }),
            final(arena).metatable_of(*self) == old(arena).metatable_of(*self),
            forall|t: Table| #[trigger] old(arena).holds(t) && t != *self ==> final(arena).entries_of(t)
                == old(arena).entries_of(t) && final(arena).metatable_of(t)
                == old(arena).metatable_of(t),
    {
        let r = arena.states[self.0].entries.set(key, value);
        proof {
            assert forall|i: int| 0 <= i < arena.states@.len() implies (#[trigger] arena.states@[i]).entries.wf() by {
                if i != self.0 {
                    assert(arena.states@[i] == old(arena).states@[i]);
                }
            }
            assert forall|t: Table| #[trigger] old(arena).holds(t) && t != *self implies final(arena).entries_of(t)
                == old(arena).entries_of(t) && final(arena).metatable_of(t) == old(arena).metatable_of(t) by {
                assert(t.0 != self.0);
            }
        }
        r
    }

    /// Some border of the table.
    pub fn length(&self, arena: &TableArena) -> (r: i64)
        requires
            arena.wf(),
            arena.holds(*self),
        ensures
            is_border(arena.contents(*self), r as int),
    {
        arena.states[self.0].entries.length()
    }

    /// The pair after `key` in the table's traversal order; see
    /// `TableEntries::next`.
    pub fn next(&self, arena: &TableArena, key: Value) -> (r: NextValue)
        requires
            arena.wf(),
            arena.holds(*self),
        ensures
            r == (if key is Nil {
                first_of(arena.order(*self))
            } else {
                match canonical(key) {
                    Ok(c) => follows(arena.order(*self), c),
                    Err(_) => NextValue::NotFound,
                }
            }),
    {
        arena.states[self.0].entries.next(key)
    }

    pub fn metatable(&self, arena: &TableArena) -> (r: Option<Table>)
        requires
            arena.holds(*self),
        ensures
            r == arena.metatable_of(*self),
    {
        arena.states[self.0].metatable
    }

    /// Replaces the metatable and returns the one it had.
    pub fn set_metatable(&self, arena: &mut TableArena, metatable: Option<Table>) -> (r: Option<
        Table,
    >)
        requires
            old(arena).wf(),
            old(arena).holds(*self),
        ensures
            final(arena).wf(),
            final(arena).len() == old(arena).len(),
            r == old(arena).metatable_of(*self),
            final(arena).metatable_of(*self) == metatable,
            forall|t: Table| #[trigger] old(arena).holds(t) ==> final(arena).entries_of(t)
                == old(arena).entries_of(t),
            forall|t: Table| #[trigger] old(arena).holds(t) && t != *self
                ==> final(arena).metatable_of(t) == old(arena).metatable_of(t),
    {
        let prior = arena.states[self.0].metatable;
        arena.states[self.0].metatable = metatable;
        proof {
            assert forall|i: int| 0 <= i < arena.states@.len() implies (#[trigger] arena.states@[i]).entries.wf() by {
                if i != self.0 {
                    assert(arena.states@[i] == old(arena).states@[i]);
                }
            }
            assert forall|t: Table| #[trigger] old(arena).holds(t) && t != *self implies
                final(arena).metatable_of(t) == old(arena).metatable_of(t) by {
                assert(t.0 != self.0);
            }
        }
        prior
    }
}

} // verus!
