//! A map from names to values that remembers the order in which the names
//! were first inserted.

use vstd::prelude::*;
use crate::text::{lemma_position_from, position_from, position_of};

verus! {

/// The names of a list of entries, in order.
pub open spec fn keys_of<V>(entries: Seq<(Seq<char>, V)>) -> Seq<Seq<char>> {
    Seq::new(entries.len(), |i: int| entries[i].0)
}

/// No name occurs twice.
pub open spec fn distinct_keys<V>(entries: Seq<(Seq<char>, V)>) -> bool {
    forall|i: int, j: int| 0 <= i < j < entries.len() ==> entries[i].0 != entries[j].0
}

/// Whether `key` is among the names of `entries`.
pub open spec fn has_key<V>(entries: Seq<(Seq<char>, V)>, key: Seq<char>) -> bool {
    position_of(keys_of(entries), key) < entries.len()
}

/// The value under `key`, if any.
pub open spec fn lookup<V>(entries: Seq<(Seq<char>, V)>, key: Seq<char>) -> Option<V> {
    let p = position_of(keys_of(entries), key);
    if p < entries.len() {
        Some(entries[p].1)
    } else {
        None
    }
}

/// `entries` with `value` under `key`: in the place of the old value, where
/// there was one, else at the end.
pub open spec fn put<V>(entries: Seq<(Seq<char>, V)>, key: Seq<char>, value: V) -> Seq<
    (Seq<char>, V),
> {
    let p = position_of(keys_of(entries), key);
    if p < entries.len() {
        entries.update(p, (key, value))
    } else {
        entries.push((key, value))
    }
}

/// `put` keeps the names distinct, sets the value under `key` and leaves the
/// values under all other names alone.
pub proof fn lemma_put<V>(entries: Seq<(Seq<char>, V)>, key: Seq<char>, value: V)
    requires
        distinct_keys(entries),
    ensures
        distinct_keys(put(entries, key, value)),
        lookup(put(entries, key, value), key) == Some(value),
        forall|other: Seq<char>|
            other != key ==> lookup(put(entries, key, value), other) == lookup(entries, other),
        has_key(entries, key) ==> keys_of(put(entries, key, value)) == keys_of(entries),
        !has_key(entries, key) ==> keys_of(put(entries, key, value)) == keys_of(entries).push(
            key,
        ),
{
    let keys = keys_of(entries);
    let after = put(entries, key, value);
    let p = position_of(keys, key);
    lemma_position_from(keys, key, 0);
    if p < entries.len() {
        assert(keys_of(after) == keys);
    } else {
        assert(keys_of(after) == keys.push(key));
        assert forall|i: int, j: int| 0 <= i < j < after.len() implies after[i].0 != after[j].0 by {
            if j == entries.len() {
                assert(keys[i] != key);
            }
        }
    }
    lemma_position_from(keys_of(after), key, 0);
    assert(lookup(after, key) == Some(value)) by {
        let q = position_of(keys_of(after), key);
        if q < p {
            assert(keys_of(after)[q] == key);
            assert(keys[q] == key);
        }
        assert(keys_of(after)[p] == key);
    }
    assert forall|other: Seq<char>| other != key implies lookup(after, other) == lookup(
        entries,
        other,
    ) by {
        lemma_position_from(keys, other, 0);
        lemma_position_from(keys_of(after), other, 0);
        let a = position_of(keys, other);
        let b = position_of(keys_of(after), other);
        if a < b {
            if a < keys.len() {
                assert(keys_of(after)[a] == keys[a]);
            }
        } else if b < a {
            assert(keys_of(after)[b] == other);
            assert(keys[b] == keys_of(after)[b]);
        }
    }
}

/// A map from names to values, in insertion order. Its view is the list of
/// its entries, no name occurring twice.
#[derive(Debug, PartialEq)]
pub struct OrderedMap<V> {
    keys: Vec<String>,
    values: Vec<V>,
}

impl<V> View for OrderedMap<V> {
    type V = Seq<(Seq<char>, V)>;

    closed spec fn view(&self) -> Seq<(Seq<char>, V)> {
        entries_view(self.keys@, self.values@)
    }
}

spec fn entries_view<V>(keys: Seq<String>, values: Seq<V>) -> Seq<(Seq<char>, V)> {
    Seq::new(keys.len(), |i: int| (keys[i]@, values[i]))
}

impl<V> OrderedMap<V> {
    #[verifier::type_invariant]
    spec fn well_formed(self) -> bool {
        &&& self.keys@.len() == self.values@.len()
        &&& forall|i: int, j: int|
            0 <= i < j < self.keys@.len() ==> self.keys@[i]@ != self.keys@[j]@
    }

    /// The empty map.
    pub fn new() -> (map: Self)
        ensures
            map@ == Seq::<(Seq<char>, V)>::empty(),
    {
        OrderedMap { keys: Vec::new(), values: Vec::new() }
    }

    /// The number of entries.
    pub fn len(&self) -> (n: usize)
        ensures
            n == self@.len(),
            distinct_keys(self@),
    {
        proof {
            use_type_invariant(self);
        }
        self.keys.len()
    }

    /// Whether the map has no entry.
    pub fn is_empty(&self) -> (b: bool)
        ensures
            b == (self@.len() == 0),
    {
        self.keys.len() == 0
    }

    /// The position of `key` among the names, or the number of entries.
    pub fn position(&self, key: &str) -> (p: usize)
        ensures
            p == position_of(keys_of(self@), key@),
            p <= self@.len(),
    {
        let ghost keys = keys_of(self@);
        let mut i: usize = 0;
        while i < self.keys.len() && !str::eq(self.keys[i].as_str(), key)
            invariant
                i <= self.keys.len(),
                keys == keys_of(self@),
                position_of(keys, key@) == position_from(keys, key@, i as int),
            decreases self.keys.len() - i,
        {
            i += 1;
        }
        i
    }

    /// Whether `key` is a name of the map.
    pub fn contains_key(&self, key: &str) -> (b: bool)
        ensures
            b == has_key(self@, key@),
    {
        self.position(key) < self.keys.len()
    }

    /// The value under `key`, if any.
    pub fn get(&self, key: &str) -> (r: Option<&V>)
        ensures
            match lookup(self@, key@) {
                Some(v) => r == Some(&v),
                None => r is None,
            },
    {
        proof {
            use_type_invariant(self);
        }
        let p = self.position(key);
        if p < self.keys.len() {
            Some(&self.values[p])
        } else {
            None
        }
    }

    /// The value under `key`, if any, to be changed in place: the map ends
    /// up with the value that the reference is left with.
    pub fn get_mut(&mut self, key: &str) -> (r: Option<&mut V>)
        ensures
            match lookup(old(self)@, key@) {
                Some(v) => r matches Some(slot) && *slot == v && final(self)@ == put(
                    old(self)@,
                    key@,
                    *final(slot),
                ),
                None => r is None && final(self)@ == old(self)@,
            },
    {
        proof {
            use_type_invariant(&*self);
            lemma_position_from(keys_of(self@), key@, 0);
        }
        let p = self.position(key);
        if p < self.keys.len() {
            Some(&mut self.values[p])
        } else {
            None
        }
    }

    /// The name at position `i`.
    pub fn key_at(&self, i: usize) -> (key: &String)
        requires
            i < self@.len(),
        ensures
            key@ == self@[i as int].0,
    {
        &self.keys[i]
    }

    /// The value at position `i`.
    pub fn value_at(&self, i: usize) -> (value: &V)
        requires
            i < self@.len(),
        ensures
            *value == self@[i as int].1,
    {
        proof {
            use_type_invariant(self);
        }
        &self.values[i]
    }

    /// Puts `value` under `key`: in the place of the old value, where there
    /// was one, else at the end.
    pub fn insert(&mut self, key: String, value: V)
        ensures
            final(self)@ == put(old(self)@, key@, value),
            distinct_keys(final(self)@),
    {
        proof {
            use_type_invariant(&*self);
            lemma_put(self@, key@, value);
            lemma_position_from(keys_of(self@), key@, 0);
        }
        let ghost before = self@;
        let ghost key_view = key@;
        let p = self.position(key.as_str());
        let mut taken = OrderedMap { keys: Vec::new(), values: Vec::new() };
        std::mem::swap(self, &mut taken);
        proof {
            use_type_invariant(&taken);
        }
        let OrderedMap { mut keys, mut values } = taken;
        if p < keys.len() {
            keys.set(p, key);
            values.set(p, value);
        } else {
            keys.push(key);
            values.push(value);
        }
        proof {
            let after = entries_view(keys@, values@);
            assert(after == put(before, key_view, value));
            assert forall|i: int, j: int| 0 <= i < j < keys@.len() implies keys@[i]@
                != keys@[j]@ by {
                assert(after[i].0 != after[j].0);
            }
        }
        *self = OrderedMap { keys, values };
    }
}

impl<V: Copy> OrderedMap<V> {
    /// A map with the same entries.
    pub fn duplicate(&self) -> (r: Self)
        ensures
            r@ == self@,
    {
        proof {
            use_type_invariant(self);
        }
        let mut keys: Vec<String> = Vec::new();
        let mut values: Vec<V> = Vec::new();
        let mut i: usize = 0;
        while i < self.keys.len()
            invariant
                i <= self.keys.len(),
                self.keys@.len() == self.values@.len(),
                keys@.len() == i,
                values@.len() == i,
                forall|j: int| 0 <= j < i ==> #[trigger] keys@[j]@ == self.keys@[j]@,
                forall|j: int| 0 <= j < i ==> #[trigger] values@[j] == self.values@[j],
            decreases self.keys.len() - i,
        {
            keys.push(self.keys[i].clone());
            values.push(self.values[i]);
            i += 1;
        }
        assert(entries_view(keys@, values@) == entries_view(self.keys@, self.values@));
        OrderedMap { keys, values }
    }
}

impl<V: Clone> Clone for OrderedMap<V> {
    /// A map with the same names in the same order, each value cloned.
    fn clone(&self) -> (r: Self)
        ensures
            r@.len() == self@.len(),
            forall|i: int| 0 <= i < self@.len() ==> #[trigger] r@[i].0 == self@[i].0,
            forall|i: int| 0 <= i < self@.len() ==> cloned::<V>(self@[i].1, #[trigger] r@[i].1),
    {
        proof {
            use_type_invariant(self);
        }
        let mut keys: Vec<String> = Vec::new();
        let mut values: Vec<V> = Vec::new();
        let mut i: usize = 0;
        while i < self.keys.len()
            invariant
                i <= self.keys.len(),
                self.keys@.len() == self.values@.len(),
                keys@.len() == i,
                values@.len() == i,
                forall|j: int| 0 <= j < i ==> #[trigger] keys@[j]@ == self.keys@[j]@,
                forall|j: int| 0 <= j < i ==> cloned::<V>(self.values@[j], #[trigger] values@[j]),
            decreases self.keys.len() - i,
        {
            keys.push(self.keys[i].clone());
            values.push(self.values[i].clone());
            i += 1;
        }
        OrderedMap { keys, values }
    }
}

} // verus!
