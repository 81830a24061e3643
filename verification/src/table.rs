//! A keyed table: values stored in insertion order in a `Vec`, found again
//! through a `hashbrown::HashMap` from key to position.

use vstd::prelude::*;

verus! {

/// A `hashbrown::HashMap` from keys to positions. The verifier does not look
/// inside; what it holds is named by [`index_entries`].
#[verifier::external_body]
pub struct SlotIndex {
    map: hashbrown::HashMap<u32, usize>,
}

/// The key-value pairs that an index holds.
pub uninterp spec fn index_entries(index: SlotIndex) -> Map<u32, usize>;

/// `hashbrown::HashMap::new`: the new map holds nothing.
#[verifier::external_body]
fn index_new() -> (table: SlotIndex)
    ensures
        (index_entries(table) == Map::<u32, usize>::empty()),
{
    SlotIndex { map: hashbrown::HashMap::new() }
}

/// `hashbrown::HashMap::get`: the value stored under `key`, if there is one.
/// The map is left as it was.
#[verifier::external_body]
fn index_get(table: &SlotIndex, key: u32) -> (found: Option<usize>)
    ensures
        found == (if index_entries(*table).contains_key(key) {
            Some(index_entries(*table)[key])
        } else {
            None
        }),
{
    table.map.get(&key).copied()
}

/// `hashbrown::HashMap::insert`: afterwards `key` maps to `value`, and every
/// other key maps to what it did before.
#[verifier::external_body]
fn index_insert(table: &mut SlotIndex, key: u32, value: usize)
    ensures
        index_entries(*final(table)) == index_entries(*old(table)).insert(key, value),
{
    table.map.insert(key, value);
}

/// The map made of the first `n` keys and values, a later entry replacing an
/// earlier one with the same key.
pub open spec fn first_entries<V>(keys: Seq<u32>, values: Seq<V>, n: int) -> Map<u32, V>
    decreases n,
{
    if n <= 0 {
        Map::empty()
    } else {
        first_entries(keys, values, n - 1).insert(keys[n - 1], values[n - 1])
    }
}

/// Where no key occurs twice, the map of the first `n` entries holds exactly
/// the first `n` keys, each with the value at its position.
pub proof fn lemma_first_entries<V>(keys: Seq<u32>, values: Seq<V>, n: int)
    requires
        0 <= n <= keys.len(),
        keys.len() == values.len(),
        keys.no_duplicates(),
    ensures
        forall|j: int|
            0 <= j < n ==> first_entries(keys, values, n).contains_key(#[trigger] keys[j])
                && first_entries(keys, values, n)[keys[j]] == values[j],
        forall|k: u32| #[trigger]
            first_entries(keys, values, n).contains_key(k) ==> exists|j: int|
                0 <= j < n && keys[j] == k,
    decreases n,
{
    if n > 0 {
        lemma_first_entries(keys, values, n - 1);
        assert forall|k: u32| #[trigger]
            first_entries(keys, values, n).contains_key(k) implies exists|j: int|
            0 <= j < n && keys[j] == k by {
            if k == keys[n - 1] {
                assert(keys[n - 1] == k);
            } else {
                assert(first_entries(keys, values, n - 1).contains_key(k));
                let j = choose|j: int| 0 <= j < n - 1 && keys[j] == k;
                assert(keys[j] == k);
            }
        }
    }
}

/// Values of type `V` under `u32` keys, kept in the order in which their keys
/// were first inserted.
pub struct Table<V> {
    index: SlotIndex,
    keys: Vec<u32>,
    values: Vec<V>,
}

impl<V> Table<V> {
    /// The index and the two vectors describe the same table: position `i`
    /// holds key `keys[i]`, and the index sends exactly the keys present to
    /// their positions.
    pub closed spec fn wf(&self) -> bool {
        let m = index_entries(self.index);
        &&& self.keys@.len() == self.values@.len()
        &&& forall|k: u32| #[trigger]
            m.contains_key(k) ==> m[k] < self.keys@.len() && self.keys@[m[k] as int] == k
        &&& forall|i: int|
            0 <= i < self.keys@.len() ==> m.contains_key(#[trigger] self.keys@[i])
                && m[self.keys@[i]] == i
    }

    /// The keys in insertion order.
    pub closed spec fn keys(&self) -> Seq<u32> {
        self.keys@
    }

    /// The values, each at the position of its key.
    pub closed spec fn values(&self) -> Seq<V> {
        self.values@
    }

    /// The table as a map from key to value.
    pub open spec fn view(&self) -> Map<u32, V> {
        Map::new(
            |k: u32| self.keys().contains(k),
            |k: u32| self.values()[self.keys().index_of(k)],
        )
    }

    /// In a well-formed table the key and value sequences have one length, no
    /// key occurs twice, and the map view agrees with the sequences.
    pub proof fn lemma_layout(&self)
        requires
            self.wf(),
        ensures
            self.keys().len() == self.values().len(),
            self.keys().no_duplicates(),
            forall|i: int|
                0 <= i < self.keys().len() ==> self@.contains_key(#[trigger] self.keys()[i])
                    && self@[self.keys()[i]] == self.values()[i],
            forall|k: u32| #[trigger]
                self@.contains_key(k) ==> exists|i: int|
                    0 <= i < self.keys().len() && self.keys()[i] == k,
    {
        let m = index_entries(self.index);
        assert forall|i: int, j: int|
            0 <= i < self.keys@.len() && 0 <= j < self.keys@.len() && i != j implies self.keys@[i]
            != self.keys@[j] by {
            assert(m[self.keys@[i]] == i);
            assert(m[self.keys@[j]] == j);
        }
        assert forall|i: int| 0 <= i < self.keys().len() implies self@.contains_key(
            #[trigger] self.keys()[i],
        ) && self@[self.keys()[i]] == self.values()[i] by {
            let k = self.keys@[i];
            assert(self.keys@.contains(k));
            let j = self.keys@.index_of(k);
            assert(self.keys@[j] == k);
        }
    }

    /// An empty table.
    pub fn new() -> (table: Self)
        ensures
            table.wf(),
            table.keys() == Seq::<u32>::empty(),
            table.values() == Seq::<V>::empty(),
            table@ == Map::<u32, V>::empty(),
    {
        let table = Table { index: index_new(), keys: Vec::new(), values: Vec::new() };
        assert(table@ =~= Map::<u32, V>::empty());
        table
    }

    /// The number of keys.
    pub fn len(&self) -> (n: usize)
        requires
            self.wf(),
        ensures
            n == self.keys().len(),
            n == self.values().len(),
    {
        self.keys.len()
    }

    /// The position of `key`, if the table holds it.
    pub fn position(&self, key: u32) -> (found: Option<usize>)
        requires
            self.wf(),
        ensures
            match found {
                Some(i) => i < self.keys().len() && i < self.values().len() && self.keys()[i as int]
                    == key && self@.contains_key(key) && self@[key] == self.values()[i as int],
                None => !self@.contains_key(key) && !self.keys().contains(key),
            },
    {
        proof {
            self.lemma_layout();
        }
        let found = index_get(&self.index, key);
        proof {
            if found is None {
                if self.keys@.contains(key) {
                    let i = self.keys@.index_of(key);
                    assert(self.keys@[i] == key);
                }
            }
        }
        found
    }

    /// The value stored under `key`, if the table holds it.
    pub fn get(&self, key: u32) -> (found: Option<&V>)
        requires
            self.wf(),
        ensures
            match found {
                Some(value) => self@.contains_key(key) && *value == self@[key],
                None => !self@.contains_key(key),
            },
    {
        match self.position(key) {
            Some(i) => Some(&self.values[i]),
            None => None,
        }
    }

    /// The key at position `i`.
    pub fn key_at(&self, i: usize) -> (key: u32)
        requires
            self.wf(),
            i < self.keys().len(),
        ensures
            key == self.keys()[i as int],
    {
        self.keys[i]
    }

    /// The value at position `i`.
    pub fn value_at(&self, i: usize) -> (value: &V)
        requires
            self.wf(),
            i < self.values().len(),
        ensures
            *value == self.values()[i as int],
    {
        &self.values[i]
    }

    /// Two well-formed tables with the same keys whose values differ at one
    /// position at most differ, as maps, at the key of that position at most.
    pub proof fn lemma_update(&self, before: &Self, i: int)
        requires
            self.wf(),
            before.wf(),
            0 <= i < before.values().len(),
            self.keys() == before.keys(),
            self.values() == before.values().update(i, self.values()[i]),
        ensures
            self@ == before@.insert(before.keys()[i], self.values()[i]),
    {
        self.lemma_layout();
        before.lemma_layout();
        assert(self@ =~= before@.insert(before.keys()[i], self.values()[i])) by {
            assert forall|k: u32| self@.contains_key(k) implies self@[k] == before@.insert(
                before.keys()[i],
                self.values()[i],
            )[k] by {
                let j = self.keys@.index_of(k);
                assert(self.keys@[j] == k);
            }
        }
    }

    /// Mutable access to the value at position `i`; keys and the other values
    /// stay as they are. [`Table::lemma_update`] gives the map view afterwards.
    pub fn value_at_mut(&mut self, i: usize) -> (value: &mut V)
        requires
            old(self).wf(),
            i < old(self).values().len(),
        ensures
            *value == old(self).values()[i as int],
            final(self).wf(),
            final(self).keys() == old(self).keys(),
            final(self).values() == old(self).values().update(i as int, *final(value)),
    {
        &mut self.values[i]
    }

    /// Replaces the value at position `i`.
    pub fn set(&mut self, i: usize, value: V)
        requires
            old(self).wf(),
            i < old(self).values().len(),
        ensures
            final(self).wf(),
            final(self).keys() == old(self).keys(),
            final(self).values() == old(self).values().update(i as int, value),
            final(self)@ == old(self)@.insert(old(self).keys()[i as int], value),
    {
        let ghost before = *self;
        self.values[i] = value;
        proof {
            self.lemma_update(&before, i as int);
        }
    }

    /// Stores `value` under `key`: in place of the value that was there, or
    /// at the end where the table did not hold the key.
    pub fn insert(&mut self, key: u32, value: V)
        requires
            old(self).wf(),
        ensures
            final(self).wf(),
            final(self)@ == old(self)@.insert(key, value),
            final(self).keys() == if old(self)@.contains_key(key) {
                old(self).keys()
            } else {
                old(self).keys().push(key)
            },
    {
        match self.position(key) {
            Some(i) => {
                self.set(i, value);
            },
            None => {
                self.push(key, value);
            },
        }
    }

    /// Moves every entry of `other` into this table, as [`Table::insert`]
    /// does: where both hold a key, the value of `other` stays.
    pub fn absorb(&mut self, other: Table<V>)
        requires
            old(self).wf(),
            other.wf(),
        ensures
            final(self).wf(),
            final(self)@ == old(self)@.union_prefer_right(other@),
    {
        proof {
            other.lemma_layout();
        }
        let ghost all_keys = other.keys@;
        let ghost all_values = other.values@;
        let Table { index: _, keys, values } = other;
        let count = keys.len();
        let mut i: usize = 0;
        for value in it: values
            invariant
                i == it.index(),
                it.seq() == all_values,
                keys@ == all_keys,
                all_keys.len() == count,
                all_values.len() == count,
                self.wf(),
                self@ == old(self)@.union_prefer_right(first_entries(all_keys, all_values, i as int)),
        {
            let key = keys[i];
            self.insert(key, value);
            proof {
                assert(self@ =~= old(self)@.union_prefer_right(
                    first_entries(all_keys, all_values, i + 1),
                ));
            }
            i += 1;
        }
        proof {
            lemma_first_entries(all_keys, all_values, all_keys.len() as int);
            assert(first_entries(all_keys, all_values, all_keys.len() as int) =~= other@) by {
                assert forall|k: u32| other@.contains_key(k) implies first_entries(
                    all_keys,
                    all_values,
                    all_keys.len() as int,
                ).contains_key(k) && first_entries(all_keys, all_values, all_keys.len() as int)[k]
                    == other@[k] by {
                    let j = choose|j: int| 0 <= j < all_keys.len() && all_keys[j] == k;
                    assert(all_keys[j] == k);
                }
            }
        }
    }

    /// Appends `value` under a key that the table does not hold yet and
    /// returns its position.
    pub fn push(&mut self, key: u32, value: V) -> (i: usize)
        requires
            old(self).wf(),
            !old(self)@.contains_key(key),
        ensures
            final(self).wf(),
            i == old(self).keys().len(),
            final(self).keys() == old(self).keys().push(key),
            final(self).values() == old(self).values().push(value),
            final(self)@ == old(self)@.insert(key, value),
    {
        proof {
            self.lemma_layout();
        }
        let i = self.keys.len();
        index_insert(&mut self.index, key, i);
        self.keys.push(key);
        self.values.push(value);
        proof {
            self.lemma_layout();
            assert(self.keys@[i as int] == key);
            assert(self@ =~= old(self)@.insert(key, value)) by {
                assert forall|k: u32| self@.contains_key(k) <==> old(self)@.insert(
                    key,
                    value,
                ).contains_key(k) by {
                    if old(self).keys@.contains(k) {
                        let j = old(self).keys@.index_of(k);
                        assert(self.keys@[j] == k);
                    }
                    if self.keys@.contains(k) && k != key {
                        let j = self.keys@.index_of(k);
                        assert(old(self).keys@[j] == k);
                    }
                }
                assert forall|k: u32| self@.contains_key(k) implies self@[k] == old(self)@.insert(
                    key,
                    value,
                )[k] by {
                    if k != key {
                        let j = self.keys@.index_of(k);
                        assert(old(self).keys@[j] == k);
                        let j0 = old(self).keys@.index_of(k);
                        assert(self.keys@[j0] == k);
                    }
                }
            }
        }
        i
    }
}

} // verus!
