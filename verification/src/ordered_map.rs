//! A map keyed by strings that remembers the order in which its keys came.

use vstd::hash_map::StringHashMap;
use vstd::prelude::*;

verus! {

/// A map from strings to values of type `V`. Lookup goes through a hash
/// table; the keys and values are also kept in the order in which the keys
/// were first inserted, so that the map can be walked in a fixed order.
#[verifier::reject_recursive_types(V)]
pub struct OrderedStringMap<V> {
    keys: Vec<String>,
    values: Vec<V>,
    slots: StringHashMap<usize>,
}

impl<V> View for OrderedStringMap<V> {
    type V = Map<Seq<char>, V>;

    closed spec fn view(&self) -> Map<Seq<char>, V> {
        Map::new(
            |k: Seq<char>| self.slots@.contains_key(k),
            |k: Seq<char>| self.values@[self.slots@[k] as int],
        )
    }
}

impl<V> OrderedStringMap<V> {
    #[verifier::type_invariant]
    spec fn well_formed(self) -> bool {
        &&& self.keys.len() == self.values.len()
        &&& forall|i: int|
            0 <= i < self.keys.len() ==> self.slots@.contains_key(#[trigger] self.keys[i]@)
                && self.slots@[self.keys[i]@] == i
        &&& forall|k: Seq<char>| #[trigger]
            self.slots@.contains_key(k) ==> self.slots@[k] < self.keys.len()
                && self.keys[self.slots@[k] as int]@ == k
    }

    /// The keys in the order in which they were first inserted.
    pub closed spec fn order(&self) -> Seq<Seq<char>> {
        self.keys.deep_view()
    }

    /// The values, each at the position of its key in `order`.
    pub closed spec fn values_in_order(&self) -> Seq<V> {
        self.values@
    }

    /// How the map and its two listings belong together: the listings name
    /// each key of the map once, with its value. Every map that this module
    /// hands out is coherent.
    pub open spec fn coherent(&self) -> bool {
        &&& self.order().len() == self.values_in_order().len()
        &&& self.order().no_duplicates()
        &&& self@.dom() == self.order().to_set()
        &&& forall|i: int|
            0 <= i < self.order().len() ==> self@[#[trigger] self.order()[i]]
                == self.values_in_order()[i]
    }

    proof fn lemma_coherent(self)
        requires
            self.well_formed(),
        ensures
            self.coherent(),
    {
        let order = self.order();
        assert forall|i: int, j: int| 0 <= i < order.len() && 0 <= j < order.len() && i != j implies order[i] != order[j] by {
            assert(self.slots@[self.keys[i]@] == i);
            assert(self.slots@[self.keys[j]@] == j);
        }
        assert forall|k: Seq<char>| self@.dom().contains(k) <==> order.to_set().contains(k) by {
            if self@.dom().contains(k) {
                assert(order[self.slots@[k] as int] == k);
            }
            if order.to_set().contains(k) {
                let i = choose|i: int| 0 <= i < order.len() && order[i] == k;
                assert(self.slots@.contains_key(self.keys[i]@));
            }
        }
        assert(self@.dom() =~= order.to_set());
        assert forall|i: int| 0 <= i < order.len() implies self@[#[trigger] order[i]]
            == self.values_in_order()[i] by {
            assert(self.slots@[self.keys[i]@] == i);
        }
    }

    /// The empty map.
    pub fn new() -> (map: Self)
        ensures
            map@ == Map::<Seq<char>, V>::empty(),
            map.order() == Seq::<Seq<char>>::empty(),
            map.values_in_order() == Seq::<V>::empty(),
            map.coherent(),
    {
        let keys: Vec<String> = Vec::new();
        let values: Vec<V> = Vec::new();
        let slots: StringHashMap<usize> = StringHashMap::new();
        let map = OrderedStringMap { keys, values, slots };
        proof {
            assert(map@ =~= Map::<Seq<char>, V>::empty());
            assert(map.order() =~= Seq::<Seq<char>>::empty());
            map.lemma_coherent();
        }
        map
    }

    /// The number of keys.
    pub fn len(&self) -> (count: usize)
        ensures
            count == self.order().len(),
            self.coherent(),
    {
        proof {
            use_type_invariant(self);
            self.lemma_coherent();
        }
        self.keys.len()
    }

    /// The place of `key` in `order`, if the map holds it.
    pub fn position(&self, key: &str) -> (place: Option<usize>)
        ensures
            self.coherent(),
            place is Some <==> self@.contains_key(key@),
            place matches Some(i) ==> i < self.order().len() && self.order()[i as int] == key@,
    {
        proof {
            use_type_invariant(self);
            self.lemma_coherent();
        }
        match self.slots.get(key) {
            Some(slot) => Some(*slot),
            None => None,
        }
    }

    /// The value under `key`, if the map holds it.
    pub fn get(&self, key: &str) -> (value: Option<&V>)
        ensures
            self.coherent(),
            value is Some <==> self@.contains_key(key@),
            value matches Some(v) ==> *v == self@[key@],
    {
        proof {
            use_type_invariant(self);
            self.lemma_coherent();
        }
        match self.slots.get(key) {
            Some(slot) => Some(&self.values[*slot]),
            None => None,
        }
    }

    /// The keys in the order in which they were first inserted.
    pub fn keys(&self) -> (keys: &Vec<String>)
        ensures
            self.coherent(),
            keys.deep_view() == self.order(),
    {
        proof {
            use_type_invariant(self);
            self.lemma_coherent();
        }
        &self.keys
    }

    /// The values, each at the position of its key.
    pub fn values(&self) -> (values: &Vec<V>)
        ensures
            self.coherent(),
            values@ == self.values_in_order(),
    {
        proof {
            use_type_invariant(self);
            self.lemma_coherent();
        }
        &self.values
    }

    /// Gives up the map for its values, each at the position of its key.
    pub fn into_values(self) -> (values: Vec<V>)
        ensures
            values@ == self.values_in_order(),
    {
        let OrderedStringMap { keys, values, slots } = self;
        values
    }

    /// Puts `value` under `key`. A key that the map already holds keeps its
    /// place and gets the new value; a new key goes to the end.
    pub fn insert(&mut self, key: String, value: V)
        ensures
            final(self).coherent(),
            final(self)@ == old(self)@.insert(key@, value),
            old(self)@.contains_key(key@) ==> final(self).order() == old(self).order(),
            !old(self)@.contains_key(key@) ==> final(self).order() == old(self).order().push(key@),
            forall|i: int|
                0 <= i < old(self).order().len() && old(self).order()[i] == key@
                    ==> final(self).values_in_order()
                    == old(self).values_in_order().update(i, value),
            !old(self)@.contains_key(key@)
                ==> final(self).values_in_order() == old(self).values_in_order().push(value),
    {
        proof {
            use_type_invariant(&*self);
            self.lemma_coherent();
        }
        let mut taken = Self::new();
        std::mem::swap(self, &mut taken);
        let ghost before = taken;
        let OrderedStringMap { mut keys, mut values, mut slots } = taken;
        match slots.get(key.as_str()) {
            Some(slot) => {
                let i: usize = *slot;
                values.set(i, value);
            },
            None => {
                let ghost old_keys = keys.deep_view();
                slots.insert(key.clone(), keys.len());
                keys.push(key);
                values.push(value);
                assert(keys.deep_view() =~= old_keys.push(key@));
            },
        }
        let map = OrderedStringMap { keys, values, slots };
        proof {
            assert(map@ =~= before@.insert(key@, value));
            map.lemma_coherent();
        }
        *self = map;
    }

    /// Puts `value` at place `i` and hands back the value that was there.
    pub(crate) fn replace_at(&mut self, i: usize, value: V) -> (previous: V)
        requires
            i < old(self).order().len(),
        ensures
            final(self).coherent(),
            final(self).order() == old(self).order(),
            previous == old(self).values_in_order()[i as int],
            final(self).values_in_order() == old(self).values_in_order().update(i as int, value),
            final(self)@ == old(self)@.insert(old(self).order()[i as int], value),
    {
        proof {
            use_type_invariant(&*self);
            self.lemma_coherent();
        }
        let mut taken = Self::new();
        std::mem::swap(self, &mut taken);
        let ghost before = taken;
        let OrderedStringMap { keys, mut values, slots } = taken;
        let mut previous = value;
        std::mem::swap(&mut values[i], &mut previous);
        let map = OrderedStringMap { keys, values, slots };
        proof {
            assert(map@ =~= before@.insert(before.order()[i as int], value));
            map.lemma_coherent();
        }
        *self = map;
        previous
    }
}

} // verus!
