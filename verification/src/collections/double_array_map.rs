//! A map of a fixed capacity that keeps its keys in one array and its values
//! in another, in the order in which the keys came.

use vstd::prelude::*;
use vstd::std_specs::cmp::PartialEqSpec;

verus! {

/// Why a `DoubleArrayMap` refused an entry.
#[derive(Debug, Clone, Copy, PartialEq, Eq, Structural)]
pub enum DoubleArrayMapError {
    /// The map is full and the key is new.
    ExceedCapacity,
}

impl DoubleArrayMapError {
    /// The error in words.
    pub fn to_string(&self) -> (text: String)
        ensures
            text@ == "Capacity exceeded!"@,
    {
        match self {
            DoubleArrayMapError::ExceedCapacity => String::from_str("Capacity exceeded!"),
        }
    }
}

/// The first place from `from` on at which `pairs` holds a key equal to
/// `key`.
pub open spec fn position_from<K: PartialEq, V>(pairs: Seq<(K, V)>, key: K, from: int) -> Option<
    int,
>
    decreases pairs.len() - from,
{
    if from < 0 || from >= pairs.len() {
        None
    } else if pairs[from].0.eq_spec(&key) {
        Some(from)
    } else {
        position_from(pairs, key, from + 1)
    }
}

/// The first place at which `pairs` holds a key equal to `key`.
pub open spec fn position<K: PartialEq, V>(pairs: Seq<(K, V)>, key: K) -> Option<int> {
    position_from(pairs, key, 0)
}

/// `position_from` names a place that holds an equal key and that no such
/// place from `from` on precedes, and names none only where no place from
/// `from` on holds an equal key.
pub proof fn lemma_position_from<K: PartialEq, V>(pairs: Seq<(K, V)>, key: K, from: int)
    requires
        0 <= from,
    ensures
        match position_from(pairs, key, from) {
            Some(i) => {
                &&& from <= i < pairs.len()
                &&& pairs[i].0.eq_spec(&key)
                &&& forall|j: int| from <= j < i ==> !(#[trigger] pairs[j]).0.eq_spec(&key)
            },
            None => forall|j: int|
                from <= j < pairs.len() ==> !(#[trigger] pairs[j]).0.eq_spec(&key),
        },
    decreases pairs.len() - from,
{
    if from < pairs.len() && !pairs[from].0.eq_spec(&key) {
        lemma_position_from(pairs, key, from + 1);
    }
}

/// Up to `CAPACITY` keys, each with a value.
#[derive(Debug, PartialEq)]
pub struct DoubleArrayMap<const CAPACITY: usize, K, V> {
    size: usize,
    keys: [K; CAPACITY],
    values: [V; CAPACITY],
}

impl<const CAPACITY: usize, K, V> DoubleArrayMap<CAPACITY, K, V> {
    #[verifier::type_invariant]
    spec fn within_capacity(self) -> bool {
        self.size <= CAPACITY
    }

    /// The entries in the order in which their keys came.
    pub closed spec fn pairs(&self) -> Seq<(K, V)> {
        Seq::new(self.size as nat, |i: int| (self.keys@[i], self.values@[i]))
    }

    /// The number of entries.
    pub fn len(&self) -> (len: usize)
        ensures
            len == self.pairs().len(),
            len <= CAPACITY,
    {
        proof {
            use_type_invariant(self);
        }
        self.size
    }

    /// The number of entries that the map has room for.
    pub fn get_capacity(&self) -> (capacity: usize)
        ensures
            capacity == CAPACITY,
    {
        CAPACITY
    }
}

impl<const CAPACITY: usize, K, V> DoubleArrayMap<CAPACITY, K, V> where
    K: Default + Copy,
    V: Default + Copy,
 {
    /// A map without entries.
    pub fn new() -> (map: Self)
        ensures
            map.pairs() == Seq::<(K, V)>::empty(),
    {
        let map = Self { size: 0, keys: [K::default();CAPACITY], values: [V::default();CAPACITY] };
        assert(map.pairs() =~= Seq::<(K, V)>::empty());
        map
    }
}

impl<const CAPACITY: usize, K, V> Default for DoubleArrayMap<CAPACITY, K, V> where
    K: Default + Copy,
    V: Default + Copy,
 {
    fn default() -> (map: Self)
        ensures
            map.pairs() == Seq::<(K, V)>::empty(),
    {
        Self::new()
    }
}

impl<const CAPACITY: usize, K, V> DoubleArrayMap<CAPACITY, K, V> where K: Eq {
    /// Gives `key` the value `value`. Where the map holds an equal key, the
    /// first such entry gets the value and its former value is returned;
    /// else the entry is added at the end, or refused if the map is full.
    pub fn insert(&mut self, key: K, value: V) -> (replaced: Result<Option<V>, DoubleArrayMapError>)
        ensures
            final(self).pairs().len() <= CAPACITY,
            K::obeys_eq_spec() ==> match position(old(self).pairs(), key) {
                Some(i) => {
                    &&& replaced == Ok::<Option<V>, DoubleArrayMapError>(
                        Some(old(self).pairs()[i].1),
                    )
                    &&& final(self).pairs() == old(self).pairs().update(
                        i,
                        (old(self).pairs()[i].0, value),
                    )
                },
                None => if old(self).pairs().len() == CAPACITY {
                    &&& replaced == Err::<Option<V>, DoubleArrayMapError>(
                        DoubleArrayMapError::ExceedCapacity,
                    )
                    &&& final(self).pairs() == old(self).pairs()
                } else {
                    &&& replaced == Ok::<Option<V>, DoubleArrayMapError>(None)
                    &&& final(self).pairs() == old(self).pairs().push((key, value))
                },
            },
    {
        proof {
            use_type_invariant(&*self);
        }
        let mut held = value;
        let mut i: usize = 0;
        while i < self.size
            invariant
                i <= self.size <= CAPACITY,
                *self == *old(self),
                held == value,
                K::obeys_eq_spec() ==> forall|j: int|
                    0 <= j < i ==> !(#[trigger] self.pairs()[j]).0.eq_spec(&key),
            decreases self.size - i,
        {
            if self.keys[i].eq(&key) {
                proof {
                    assert(K::obeys_eq_spec() ==> self.pairs()[i as int].0.eq_spec(&key));
                    lemma_position_from(self.pairs(), key, 0);
                }
                core::mem::swap(&mut self.values[i], &mut held);
                assert(self.pairs() =~= old(self).pairs().update(
                    i as int,
                    (old(self).pairs()[i as int].0, value),
                ));
                return Ok(Some(held));
            }
            assert(K::obeys_eq_spec() ==> !self.pairs()[i as int].0.eq_spec(&key));
            i += 1;
        }
        proof {
            lemma_position_from(self.pairs(), key, 0);
        }

        if self.size == CAPACITY {
            return Err(DoubleArrayMapError::ExceedCapacity);
        }
        self.keys[self.size] = key;
        self.values[self.size] = held;
        self.size += 1;
        assert(self.pairs() =~= old(self).pairs().push((key, value)));

        Ok(None)
    }

    /// The value of the first entry whose key equals `key`.
    pub fn get(&self, key: &K) -> (value: Option<&V>)
        ensures
            K::obeys_eq_spec() ==> match position(self.pairs(), *key) {
                Some(i) => value == Some(&self.pairs()[i].1),
                None => value is None,
            },
    {
        proof {
            use_type_invariant(self);
        }
        let mut i: usize = 0;
        while i < self.size
            invariant
                i <= self.size <= CAPACITY,
                K::obeys_eq_spec() ==> forall|j: int|
                    0 <= j < i ==> !(#[trigger] self.pairs()[j]).0.eq_spec(key),
            decreases self.size - i,
        {
            if self.keys[i].eq(key) {
                proof {
                    assert(K::obeys_eq_spec() ==> self.pairs()[i as int].0.eq_spec(key));
                    lemma_position_from(self.pairs(), *key, 0);
                }
                return Some(&self.values[i]);
            }
            assert(K::obeys_eq_spec() ==> !self.pairs()[i as int].0.eq_spec(key));
            i += 1;
        }
        proof {
            lemma_position_from(self.pairs(), *key, 0);
        }

        None
    }
}

} // verus!
