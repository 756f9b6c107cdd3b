//! Maps keyed by node names, kept in the order in which the names arrived.

use crate::node_set::{with_name, NodeSet};
use vstd::prelude::*;

verus! {

/// What a map holds after `value` is stored under `key`: the value under that
/// key is replaced where the key is present, and added behind the others where
/// it is not.
pub open spec fn stored<V>(order: Seq<Seq<char>>, values: Seq<V>, key: Seq<char>, value: V) -> Seq<
    V,
> {
    if order.contains(key) {
        values.update(order.index_of(key), value)
    } else {
        values.push(value)
    }
}

/// The map that names and values, place by place, stand for.
pub open spec fn map_of<V>(order: Seq<Seq<char>>, values: Seq<V>) -> Map<Seq<char>, V> {
    Map::new(|key: Seq<char>| order.contains(key), |key: Seq<char>| values[order.index_of(key)])
}

/// Storing a value under a key changes the map at that key and nowhere else.
pub proof fn lemma_stored<V>(order: Seq<Seq<char>>, values: Seq<V>, key: Seq<char>, value: V)
    requires
        order.no_duplicates(),
        order.len() == values.len(),
    ensures
        map_of(with_name(order, key), stored(order, values, key, value)) == map_of(
            order,
            values,
        ).insert(key, value),
{
    let after_order = with_name(order, key);
    let after_values = stored(order, values, key, value);
    let after = map_of(after_order, after_values);
    let wanted = map_of(order, values).insert(key, value);
    crate::node_set::lemma_with_name(order, key);
    assert forall|k: Seq<char>| after.dom().contains(k) <==> wanted.dom().contains(k) by {
        if after_order.contains(k) {
            assert(after_order.to_set().contains(k));
        }
        if order.contains(k) || k == key {
            assert(order.to_set().insert(key).contains(k));
            assert(after_order.to_set().contains(k));
        }
    }
    assert forall|k: Seq<char>| after.dom().contains(k) implies after[k] == wanted[k] by {
        let at = after_order.index_of(k);
        assert(after_order[at] == k);
        if order.contains(key) {
            let was = order.index_of(k);
            assert(order[was] == k);
            assert(order[order.index_of(key)] == key);
        } else {
            if k == key {
                assert(after_order[order.len() as int] == key);
            } else {
                assert(order.contains(k)) by {
                    assert(order.to_set().insert(key).contains(k));
                }
                let was = order.index_of(k);
                assert(order[was] == k);
                assert(after_order[was] == k);
            }
        }
    }
    assert(after =~= wanted);
}

/// A map from node names to values.
#[derive(Debug)]
pub struct NodeMap<V> {
    keys: NodeSet,
    values: Vec<V>,
}

impl<V> View for NodeMap<V> {
    type V = Map<Seq<char>, V>;

    open spec fn view(&self) -> Map<Seq<char>, V> {
        map_of(self.order(), self.values())
    }
}

impl<V> NodeMap<V> {
    #[verifier::type_invariant]
    closed spec fn aligned(&self) -> bool {
        &&& self.keys.order().len() == self.values@.len()
        &&& self.keys.order().no_duplicates()
    }

    /// The keys in the order in which they were added.
    pub closed spec fn order(&self) -> Seq<Seq<char>> {
        self.keys.order()
    }

    /// The values, each at the place of its key.
    pub closed spec fn values(&self) -> Seq<V> {
        self.values@
    }

    /// The empty map.
    pub fn new() -> (m: NodeMap<V>)
        ensures
            m.order() == Seq::<Seq<char>>::empty(),
            m.values() == Seq::<V>::empty(),
    {
        NodeMap { keys: NodeSet::new(), values: Vec::new() }
    }

    /// How many keys the map holds.
    pub fn len(&self) -> (n: usize)
        ensures
            n == self.order().len(),
            n == self.values().len(),
            self.order().no_duplicates(),
    {
        proof {
            use_type_invariant(self);
        }
        self.values.len()
    }

    /// The key at place `i`.
    pub fn key_at(&self, i: usize) -> (key: &String)
        requires
            i < self.order().len(),
        ensures
            key@ == self.order()[i as int],
    {
        self.keys.get(i)
    }

    /// The value at place `i`.
    pub fn value_at(&self, i: usize) -> (value: &V)
        requires
            i < self.order().len(),
        ensures
            *value == self.values()[i as int],
    {
        proof {
            use_type_invariant(self);
        }
        &self.values[i]
    }

    /// The keys as a set.
    pub fn keys(&self) -> (keys: &NodeSet)
        ensures
            keys.order() == self.order(),
    {
        &self.keys
    }

    /// The place of `key` in the map, if it is there.
    pub fn position(&self, key: &str) -> (place: Option<usize>)
        ensures
            match place {
                Some(i) => i < self.order().len() && self.order()[i as int] == key@
                    && self.order().index_of(key@) == i,
                None => !self.order().contains(key@),
            },
            self.order().no_duplicates(),
            self.order().len() == self.values().len(),
    {
        proof {
            use_type_invariant(self);
        }
        let place = self.keys.position(key);
        proof {
            if let Some(i) = place {
                let j = self.order().index_of(key@);
                assert(self.order().contains(key@));
            }
        }
        place
    }

    /// The value under `key`, if the map holds one.
    pub fn get(&self, key: &str) -> (value: Option<&V>)
        ensures
            match value {
                Some(v) => self@.dom().contains(key@) && *v == self@[key@],
                None => !self@.dom().contains(key@),
            },
    {
        match self.position(key) {
            Some(i) => Some(self.value_at(i)),
            None => None,
        }
    }

    /// Replaces the value at place `i`.
    pub fn set_at(&mut self, i: usize, value: V)
        requires
            i < old(self).order().len(),
        ensures
            final(self).order() == old(self).order(),
            final(self).values() == old(self).values().update(i as int, value),
    {
        proof {
            use_type_invariant(&*self);
        }
        let mut taken: NodeMap<V> = NodeMap::new();
        core::mem::swap(&mut taken, self);
        let NodeMap { keys, mut values } = taken;
        values.set(i, value);
        *self = NodeMap { keys, values };
    }

    /// Stores `value` under `key`; a value that was there is replaced.
    pub fn insert(&mut self, key: String, value: V)
        ensures
            final(self).order() == with_name(old(self).order(), key@),
            final(self).values() == stored(old(self).order(), old(self).values(), key@, value),
            final(self)@ == old(self)@.insert(key@, value),
    {
        proof {
            use_type_invariant(&*self);
            lemma_stored(old(self).order(), old(self).values(), key@, value);
        }
        match self.position(key.as_str()) {
            Some(i) => {
                self.set_at(i, value);
            },
            None => {
                let mut taken: NodeMap<V> = NodeMap::new();
                core::mem::swap(&mut taken, self);
                let NodeMap { mut keys, mut values } = taken;
                keys.insert(key);
                values.push(value);
                proof {
                    crate::node_set::lemma_with_name(old(self).order(), key@);
                }
                *self = NodeMap { keys, values };
            },
        }
    }
}

} // verus!
