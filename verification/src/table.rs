//! A table from text to values that remembers the order in which its keys came in.

use crate::text;
use vstd::hash_map::StringHashMap;
use vstd::prelude::*;

verus! {

/// The rows of a table, and where each key stands among them.
#[verifier::reject_recursive_types(T)]
struct Rows<T> {
    keys: Vec<String>,
    values: Vec<T>,
    slots: StringHashMap<usize>,
}

impl<T> Rows<T> {
    spec fn valid(self) -> bool {
        &&& self.keys@.len() == self.values@.len()
        &&& forall|i: int|
            0 <= i < self.keys@.len() ==> self.slots@.contains_key(#[trigger] self.keys@[i]@)
                && self.slots@[self.keys@[i]@] == i
        &&& forall|k: Seq<char>| #[trigger]
            self.slots@.contains_key(k) ==> self.slots@[k] < self.keys@.len()
                && self.keys@[self.slots@[k] as int]@ == k
    }
}

/// A table from text to values.
///
/// Its rows are walked in the order in which their keys were first inserted.
#[verifier::reject_recursive_types(T)]
pub struct Table<T> {
    rows: Rows<T>,
}

impl<T> Table<T> {
    /// Every key stands in one row and is found there.
    #[verifier::type_invariant]
    pub closed spec fn valid(self) -> bool {
        self.rows.valid()
    }

    /// The keys in the order of the rows.
    pub closed spec fn keys(self) -> Seq<Seq<char>> {
        text::texts(self.rows.keys@)
    }
}

impl<T> View for Table<T> {
    type V = Map<Seq<char>, T>;

    closed spec fn view(&self) -> Map<Seq<char>, T> {
        Map::new(
            |k: Seq<char>| self.rows.slots@.contains_key(k),
            |k: Seq<char>| self.rows.values@[self.rows.slots@[k] as int],
        )
    }
}

/// The keys of a table are those of its rows, each once.
pub proof fn table_keys<T>(table: &Table<T>)
    requires
        table.valid(),
    ensures
        table.keys().no_duplicates(),
        table@.dom() == table.keys().to_set(),
        table@.dom().finite(),
        forall|k: Seq<char>| #[trigger] table@.contains_key(k) <==> table.keys().contains(k),
        forall|i: int|
            0 <= i < table.keys().len() ==> table@.contains_key(#[trigger] table.keys()[i]),
{
    let keys = table.keys();
    assert forall|i: int, j: int| 0 <= i < keys.len() && 0 <= j < keys.len() && i != j implies keys[i]
        != keys[j] by {
        assert(table.rows.slots@[table.rows.keys@[i]@] == i);
        assert(table.rows.slots@[table.rows.keys@[j]@] == j);
    }
    assert forall|k: Seq<char>| #[trigger] table@.contains_key(k) <==> keys.contains(k) by {
        if table@.contains_key(k) {
            assert(table.rows.slots@.contains_key(k));
            assert(keys[table.rows.slots@[k] as int] == k);
        }
        if keys.contains(k) {
            let i = choose|i: int| 0 <= i < keys.len() && keys[i] == k;
            assert(table.rows.slots@.contains_key(table.rows.keys@[i]@));
        }
    }
    assert(table@.dom() =~= keys.to_set());
    vstd::seq_lib::seq_to_set_is_finite(keys);
    assert forall|i: int| 0 <= i < keys.len() implies table@.contains_key(#[trigger] keys[i]) by {
        assert(keys.contains(keys[i]));
    }
}

impl<T> Table<T> {
    /// A table without rows.
    pub fn new() -> (r: Self)
        ensures
            r@ == Map::<Seq<char>, T>::empty(),
            r.keys() == Seq::<Seq<char>>::empty(),
    {
        let r = Table {
            rows: Rows { keys: Vec::new(), values: Vec::new(), slots: StringHashMap::new() },
        };
        assert(r@ =~= Map::<Seq<char>, T>::empty());
        assert(r.keys() =~= Seq::<Seq<char>>::empty());
        r
    }

    /// How many rows the table has.
    pub fn len(&self) -> (n: usize)
        ensures
            n == self.keys().len(),
            self.valid(),
    {
        proof {
            use_type_invariant(self);
        }
        self.rows.keys.len()
    }

    /// The key of row `i`.
    pub fn key_at(&self, i: usize) -> (r: &String)
        requires
            i < self.keys().len(),
        ensures
            r@ == self.keys()[i as int],
            self@.contains_key(r@),
    {
        proof {
            use_type_invariant(self);
            table_keys(self);
        }
        &self.rows.keys[i]
    }

    /// The value of row `i`.
    pub fn value_at(&self, i: usize) -> (r: &T)
        requires
            i < self.keys().len(),
        ensures
            self@.contains_key(self.keys()[i as int]),
            *r == self@[self.keys()[i as int]],
    {
        proof {
            use_type_invariant(self);
            table_keys(self);
            assert(self.rows.slots@[self.rows.keys@[i as int]@] == i);
        }
        &self.rows.values[i]
    }

    /// The row of `key`, if it has one.
    pub fn slot_of(&self, key: &str) -> (r: Option<usize>)
        ensures
            match r {
                Some(i) => i < self.keys().len() && self.keys()[i as int] == key@
                    && self@.contains_key(key@),
                None => !self@.contains_key(key@),
            },
    {
        proof {
            use_type_invariant(self);
        }
        match self.rows.slots.get(key) {
            Some(i) => Some(*i),
            None => None,
        }
    }

    /// The value of `key`, if it has one.
    pub fn get(&self, key: &str) -> (r: Option<&T>)
        ensures
            match r {
                Some(v) => self@.contains_key(key@) && *v == self@[key@],
                None => !self@.contains_key(key@),
            },
    {
        match self.slot_of(key) {
            Some(i) => Some(self.value_at(i)),
            None => None,
        }
    }

    /// Whether the table has a row for `key`.
    pub fn contains_key(&self, key: &str) -> (r: bool)
        ensures
            r == self@.contains_key(key@),
    {
        self.slot_of(key).is_some()
    }

    /// Gives `key` the value `value`: in its row where it has one, else in a new last row.
    pub fn insert(&mut self, key: String, value: T)
        ensures
            final(self)@ == old(self)@.insert(key@, value),
            final(self).keys() == (if old(self)@.contains_key(key@) {
                old(self).keys()
            } else {
                old(self).keys().push(key@)
            }),
    {
        proof {
            use_type_invariant(&*self);
        }
        let ghost before = *self;
        match self.slot_of(key.as_str()) {
            Some(i) => {
                let mut value = value;
                self.swap_value(i, &mut value);
            },
            None => {
                let mut rows = Rows {
                    keys: Vec::new(),
                    values: Vec::new(),
                    slots: StringHashMap::new(),
                };
                std::mem::swap(&mut self.rows, &mut rows);
                let n = rows.keys.len();
                rows.slots.insert(key.clone(), n);
                rows.keys.push(key);
                rows.values.push(value);
                assert(rows.valid()) by {
                    assert forall|k: Seq<char>| #[trigger]
                        rows.slots@.contains_key(k) implies rows.slots@[k] < rows.keys@.len()
                        && rows.keys@[rows.slots@[k] as int]@ == k by {
                        if k != key@ {
                            assert(before.rows.slots@.contains_key(k));
                        }
                    }
                    assert forall|i: int| 0 <= i < rows.keys@.len() implies rows.slots@.contains_key(
                        #[trigger] rows.keys@[i]@,
                    ) && rows.slots@[rows.keys@[i]@] == i by {
                        if i < n {
                            assert(before.rows.slots@.contains_key(before.rows.keys@[i]@));
                        }
                    }
                }
                self.rows = rows;
                assert(self@ =~= before@.insert(key@, value)) by {
                    assert forall|k: Seq<char>| before@.contains_key(k) implies self@[k]
                        == before@[k] by {
                        assert(before.rows.slots@.contains_key(k));
                    }
                }
                assert(self.keys() =~= before.keys().push(key@));
            },
        }
    }

    /// Exchanges the value of row `i` with `value`.
    pub fn swap_value(&mut self, i: usize, value: &mut T)
        requires
            i < old(self).keys().len(),
        ensures
            final(self)@ == old(self)@.insert(old(self).keys()[i as int], *old(value)),
            final(self).keys() == old(self).keys(),
            old(self)@.contains_key(old(self).keys()[i as int]),
            *final(value) == old(self)@[old(self).keys()[i as int]],
    {
        proof {
            use_type_invariant(&*self);
            table_keys(&*self);
        }
        let ghost before = *self;
        let mut rows = Rows { keys: Vec::new(), values: Vec::new(), slots: StringHashMap::new() };
        std::mem::swap(&mut self.rows, &mut rows);
        std::mem::swap(&mut rows.values[i], value);
        self.rows = rows;
        let ghost key = before.keys()[i as int];
        assert(self@ =~= before@.insert(key, *old(value))) by {
            assert(before.rows.slots@.contains_key(before.rows.keys@[i as int]@));
            assert forall|k: Seq<char>| #[trigger] before@.contains_key(k) && k
                != key implies self@[k] == before@[k] by {
                assert(before.rows.slots@.contains_key(k));
                assert(before.rows.slots@[k] != i);
            }
        }
    }
}

} // verus!
