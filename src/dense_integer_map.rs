use vstd::prelude::*;
use crate::square::Square;

verus! {

/// A key that numbers its values densely from 0 up to `max_index()`.
pub trait DenseIntegerMapKey: Sized + Copy {
    /// How many key numbers there are.
    spec fn max_index_spec() -> nat;

    fn max_index() -> (r: usize)
        ensures
            r == Self::max_index_spec();

    fn from_index(index: usize) -> (r: Option<Self>)
        ensures
            r is Some ==> r->0.index_of() == index,
            r is Some <==> index < Self::max_index_spec();

    /// The number of this key.
    spec fn index_of(&self) -> nat;

    fn as_index(&self) -> (r: usize)
        ensures
            r == self.index_of();
}

impl DenseIntegerMapKey for Square {
    open spec fn max_index_spec() -> nat {
        64
    }

    fn max_index() -> (r: usize) {
        64
    }

    fn from_index(index: usize) -> (r: Option<Square>) {
        if index < 64 {
            Square::from_u8(index as u8)
        } else {
            None
        }
    }

    open spec fn index_of(&self) -> nat {
        crate::square::sq_index(*self)
    }

    fn as_index(&self) -> (r: usize) {
        self.as_u8() as usize
    }
}

/// A map from dense keys to values, held as one optional slot per key number.
pub struct DenseIntegerMap<Key: DenseIntegerMapKey, Value> {
    table: Vec<Option<Value>>,
    phantom: Option<Key>,
}

impl<Key: DenseIntegerMapKey, Value> DenseIntegerMap<Key, Value> {
    /// The slot of each key number.
    pub closed spec fn slots(&self) -> Seq<Option<Value>> {
        self.table@
    }

    /// The map with no value, with a slot for each key number.
    pub fn new() -> (r: Self)
        ensures
            r.slots().len() == Key::max_index_spec(),
            forall|i: int| 0 <= i < r.slots().len() ==> r.slots()[i] is None,
    {
        let n = Key::max_index();
        let mut table: Vec<Option<Value>> = Vec::new();
        let mut i: usize = 0;
        while i < n
            invariant
                i <= n,
                table@.len() == i,
                forall|j: int| 0 <= j < i ==> table@[j] is None,
            decreases n - i,
        {
            table.push(None);
            i = i + 1;
        }
        DenseIntegerMap { table, phantom: None }
    }

    /// Whether `key` has a value.
    pub fn contains(&self, key: Key) -> (r: bool)
        ensures
            r == (key.index_of() < self.slots().len() && self.slots()[key.index_of() as int] is Some),
    {
        let i = key.as_index();
        i < self.table.len() && self.table[i].is_some()
    }

    /// The value of `key`, if it has one.
    pub fn get(&self, key: Key) -> (r: Option<&Value>)
        ensures
            r is Some <==> (key.index_of() < self.slots().len() && self.slots()[key.index_of() as int] is Some),
            r is Some ==> *r->0 == self.slots()[key.index_of() as int]->0,
    {
        let i = key.as_index();
        if i < self.table.len() {
            self.table[i].as_ref()
        } else {
            None
        }
    }

    /// Gives `key` the value `value`; a key outside the table is ignored.
    pub fn insert(&mut self, key: Key, value: Value)
        ensures
            final(self).slots().len() == old(self).slots().len(),
            key.index_of() >= old(self).slots().len() ==> final(self).slots() == old(self).slots(),
            key.index_of() < old(self).slots().len() ==> final(self).slots() == old(self).slots().update(
                key.index_of() as int,
                Some(value),
            ),
    {
        let i = key.as_index();
        if i < self.table.len() {
            self.table.set(i, Some(value));
        }
    }

    /// The keys that have a value, each with its value, in ascending order of key number.
    pub fn iter(&self) -> (r: Vec<(Key, &Value)>)
        requires
            self.slots().len() <= Key::max_index_spec(),
        ensures
            forall|j: int| 0 <= j < r@.len() ==> {
                let i = (#[trigger] r@[j]).0.index_of();
                &&& i < self.slots().len()
                &&& self.slots()[i as int] == Some(*r@[j].1)
            },
            forall|a: int, b: int| 0 <= a < b < r@.len() ==> r@[a].0.index_of() < r@[b].0.index_of(),
            forall|i: int| 0 <= i < self.slots().len() && self.slots()[i] is Some ==> exists|j: int| 0 <= j < r@.len()
                && #[trigger] r@[j].0.index_of() == i,
    {
        let mut out: Vec<(Key, &Value)> = Vec::new();
        let mut i: usize = 0;
        while i < self.table.len()
            invariant
                self.table@.len() <= Key::max_index_spec(),
                i <= self.table@.len(),
                forall|j: int| 0 <= j < out@.len() ==> {
                    let k = (#[trigger] out@[j]).0.index_of();
                    &&& k < i
                    &&& self.table@[k as int] == Some(*out@[j].1)
                },
                forall|a: int, b: int| 0 <= a < b < out@.len() ==> out@[a].0.index_of() < out@[b].0.index_of(),
                forall|k: int| 0 <= k < i && self.table@[k] is Some ==> exists|j: int| 0 <= j < out@.len()
                    && #[trigger] out@[j].0.index_of() == k,
            decreases self.table@.len() - i,
        {
            let ghost before = out@;
            if let Some(value) = self.table[i].as_ref() {
                if let Some(key) = Key::from_index(i) {
                    out.push((key, value));
                }
            }
            proof {
                assert forall|k: int| 0 <= k < i + 1 && self.table@[k] is Some implies exists|j: int| 0 <= j < out@.len()
                    && #[trigger] out@[j].0.index_of() == k by {
                    if k < i {
                        let j = choose|j: int| 0 <= j < before.len() && #[trigger] before[j].0.index_of() == k;
                        assert(out@[j] == before[j]);
                    } else {
                        assert(out@[out@.len() - 1].0.index_of() == i);
                    }
                }
            }
            i = i + 1;
        }
        out
    }
}

} // verus!
