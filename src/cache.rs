use vstd::prelude::*;
use vstd::std_specs::hash::obeys_key_model;

use std::collections::HashMap;
use std::collections::VecDeque;
use std::hash::Hash;

verus! {

broadcast use vstd::std_specs::hash::group_hash_axioms;

/// A map from keys to values.
pub struct KeyValueMap<K, V> {
    map: HashMap<K, V>,
}

impl<K: Eq + Hash, V: Clone> KeyValueMap<K, V> {
    /// The entries of the map.
    pub closed spec fn spec_map(&self) -> vstd::map::Map<K, V> {
        self.map@
    }

    /// An empty map.
    pub fn new() -> (r: KeyValueMap<K, V>)
        ensures
            r.spec_map() == vstd::map::Map::<K, V>::empty(),
    {
        KeyValueMap { map: HashMap::new() }
    }

    /// Whether the map holds `key`.
    pub fn contains_key(&self, key: &K) -> (r: bool)
        ensures
            obeys_key_model::<K>() ==> r == self.spec_map().contains_key(*key),
    {
        self.map.contains_key(key)
    }

    /// A copy of the value under `key`, if any.
    pub fn get(&self, key: &K) -> (r: Option<V>)
        ensures
            obeys_key_model::<K>() ==> match r {
                Some(v) => self.spec_map().contains_key(*key) && cloned(self.spec_map()[*key], v),
                None => !self.spec_map().contains_key(*key),
            },
    {
        match self.map.get(key) {
            Some(val) => Some(val.clone()),
            None => None,
        }
    }

    /// Puts `value` under `key`; returns the value it replaces, if any.
    pub fn insert(&mut self, key: K, value: V) -> (r: Option<V>)
        ensures
            obeys_key_model::<K>() ==> {
                &&& final(self).spec_map() == old(self).spec_map().insert(key, value)
                &&& match r {
                    Some(v) => old(self).spec_map().contains_key(key) && v == old(self).spec_map()[key],
                    None => !old(self).spec_map().contains_key(key),
                }
            },
    {
        self.map.insert(key, value)
    }
}

/// A stack of values: the last pushed is the first popped.
pub struct Queue<V> {
    queue: Vec<V>,
}

impl<V: Clone> Queue<V> {
    /// The values, oldest first.
    pub closed spec fn spec_items(&self) -> Seq<V> {
        self.queue@
    }

    /// An empty queue.
    pub fn new() -> (r: Queue<V>)
        ensures
            r.spec_items() == Seq::<V>::empty(),
    {
        Queue { queue: Vec::new() }
    }

    /// Adds `item` at the end.
    pub fn push(&mut self, item: V)
        ensures
            final(self).spec_items() == old(self).spec_items().push(item),
    {
        self.queue.push(item)
    }

    /// Takes the last item, if any.
    pub fn pop(&mut self) -> (r: Option<V>)
        ensures
            old(self).spec_items().len() == 0 ==> r is None && final(self).spec_items()
                == old(self).spec_items(),
            old(self).spec_items().len() > 0 ==> r == Some(old(self).spec_items().last())
                && final(self).spec_items() == old(self).spec_items().drop_last(),
    {
        self.queue.pop()
    }

    /// Reverses the order of the items.
    pub fn reverse(&mut self)
        ensures
            final(self).spec_items() == old(self).spec_items().reverse(),
    {
        let ghost items = self.queue@;
        let mut reversed: Vec<V> = Vec::new();
        while self.queue.len() > 0
            invariant
                self.queue@.len() + reversed@.len() == items.len(),
                self.queue@ == items.subrange(0, self.queue@.len() as int),
                reversed@ == items.subrange(self.queue@.len() as int, items.len() as int).reverse(),
            decreases self.queue@.len(),
        {
            let ghost n = self.queue@.len();
            let item = self.queue.pop().unwrap();
            reversed.push(item);
            assert(self.queue@ =~= items.subrange(0, n - 1));
            assert(reversed@ =~= items.subrange(n - 1, items.len() as int).reverse());
        }
        assert(items.subrange(0, items.len() as int) =~= items);
        self.queue = reversed;
        assert(self.queue@ =~= items.reverse());
    }

    /// A copy of the items, oldest first.
    pub fn to_vec(&self) -> (r: Vec<V>)
        ensures
            r@.len() == self.spec_items().len(),
            forall|i: int| 0 <= i < r@.len() ==> cloned(self.spec_items()[i], #[trigger] r@[i]),
    {
        self.queue.clone()
    }
}

/// A first-in, first-out queue of values.
pub struct Deque<V> {
    deque: VecDeque<V>,
}

impl<V> Deque<V> {
    /// The values, front first.
    pub closed spec fn spec_items(&self) -> Seq<V> {
        self.deque@
    }

    /// An empty deque.
    pub fn new() -> (r: Deque<V>)
        ensures
            r.spec_items() == Seq::<V>::empty(),
    {
        Deque { deque: VecDeque::new() }
    }

    /// Whether the deque holds no value.
    pub fn is_empty(&self) -> (r: bool)
        ensures
            r == (self.spec_items().len() == 0),
    {
        self.deque.len() == 0
    }

    /// Takes the front value, if any.
    pub fn pop_front(&mut self) -> (r: Option<V>)
        ensures
            old(self).spec_items().len() == 0 ==> r is None && final(self).spec_items()
                == old(self).spec_items(),
            old(self).spec_items().len() > 0 ==> r == Some(old(self).spec_items()[0])
                && final(self).spec_items() == old(self).spec_items().drop_first(),
    {
        self.deque.pop_front()
    }

    /// Adds `item` at the back.
    pub fn push_back(&mut self, item: V)
        ensures
            final(self).spec_items() == old(self).spec_items().push(item),
    {
        self.deque.push_back(item)
    }
}

/// A single value that can be read and replaced.
pub struct Value<T> {
    value: T,
}

impl<T: Clone> Value<T> {
    /// The current value.
    pub closed spec fn spec_value(&self) -> T {
        self.value
    }

    /// A cell that holds `value`.
    pub fn of(value: T) -> (r: Value<T>)
        ensures
            r.spec_value() == value,
    {
        Value { value }
    }

    /// A copy of the current value.
    pub fn read(&self) -> (r: T)
        ensures
            cloned(self.spec_value(), r),
    {
        self.value.clone()
    }

    /// Replaces the current value.
    pub fn write(&mut self, value: T)
        ensures
            final(self).spec_value() == value,
    {
        self.value = value
    }
}

} // verus!
